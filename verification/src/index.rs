//! The scorer/index: one stored embedding per document identifier,
//! point upserts, and ranking of every stored document against a
//! query embedding.
//!
//! `matches` returns every stored document with a nonzero score,
//! sorted by non-increasing score. Ties are broken by insertion order
//! (the order in which the identifiers were first upserted): the sort
//! is stable, so results are deterministic.

use vstd::multiset::Multiset;
use vstd::prelude::*;

use crate::arith::{sat_add_spec, sat_mul_spec, SCALE_MILLI};
use crate::embed::{emb_model, find_val, lemma_lookup_absent, lookup, Embedding};

verus! {

/// A document identifier: a value with an abstraction (its view),
/// a decidable equality on views and a view-preserving copy.
pub trait DocKey: View + Sized {
    /// Whether two identifiers denote the same document.
    fn key_eq(&self, other: &Self) -> (r: bool)
        ensures
            r == (self@ == other@),
    ;

    /// A copy of the identifier denoting the same document.
    fn dup(&self) -> (r: Self)
        ensures
            r@ == self@,
    ;
}

impl DocKey for i32 {
    fn key_eq(&self, other: &Self) -> (r: bool) {
        *self == *other
    }

    fn dup(&self) -> (r: Self) {
        *self
    }
}

/// One ranked result: a document identifier and its relevance score
/// in milli-units.
pub struct ScoreResult<K: DocKey> {
    pub id: K,
    pub score_milli: u64,
}

/// The mathematical value of a result list: (identifier view, score).
pub open spec fn res_models<K: DocKey>(s: Seq<ScoreResult<K>>) -> Seq<(K::V, u64)> {
    s.map_values(|r: ScoreResult<K>| (r.id@, r.score_milli))
}

/// The relevance score of a document embedding against a query
/// embedding: over the query's terms, the saturating sum of the
/// products of the two milli-weights, rescaled to milli-units.
pub open spec fn dot_spec(q: Seq<(Seq<u8>, u64)>, d: Seq<(Seq<u8>, u64)>) -> u64
    decreases q.len(),
{
    if q.len() == 0 {
        0
    } else {
        sat_add_spec(
            dot_spec(q.drop_last(), d),
            sat_mul_spec(q.last().1, lookup(d, q.last().0)) / SCALE_MILLI,
        )
    }
}

/// The relevance score of document embedding `d` against query
/// embedding `q`.
pub fn dot_milli(q: &Embedding, d: &Embedding) -> (r: u64)
    ensures
        r == dot_spec(emb_model(*q), emb_model(*d)),
{
    let ghost qm = emb_model(*q);
    let ghost dm = emb_model(*d);
    let mut acc: u64 = 0;
    proof {
        assert(qm.take(0) =~= Seq::<(Seq<u8>, u64)>::empty());
    }
    let mut i: usize = 0;
    while i < q.terms.len()
        invariant
            i <= qm.len(),
            emb_model(*q) == qm,
            emb_model(*d) == dm,
            q.terms@.len() == qm.len(),
            acc == dot_spec(qm.take(i as int), dm),
        decreases qm.len() - i,
    {
        proof {
            assert(qm.take(i + 1).drop_last() =~= qm.take(i as int));
            assert(qm.take(i + 1).last() == qm[i as int]);
            assert(q.terms@[i as int].term@ == qm[i as int].0);
            assert(q.terms@[i as int].val == qm[i as int].1);
        }
        let dw = match find_val(&d.terms, &q.terms[i].term) {
            Some(w) => w,
            None => {
                proof {
                    lemma_lookup_absent(dm, qm[i as int].0);
                }
                0
            },
        };
        let p = crate::arith::sat_mul(q.terms[i].val, dw) / SCALE_MILLI;
        acc = crate::arith::sat_add(acc, p);
        i += 1;
    }
    proof {
        assert(qm.take(qm.len() as int) =~= qm);
    }
    acc
}

/// Scores every entry against the query and keeps the nonzero ones,
/// in storage order.
pub open spec fn scored_spec<I>(entries: Seq<(I, Seq<(Seq<u8>, u64)>)>, q: Seq<(Seq<u8>, u64)>) -> Seq<
    (I, u64),
> {
    entries.map_values(|e: (I, Seq<(Seq<u8>, u64)>)| (e.0, dot_spec(q, e.1))).filter(
        |p: (I, u64)| p.1 > 0,
    )
}

/// Whether a result sequence is sorted by non-increasing score.
pub open spec fn sorted_desc<I>(s: Seq<(I, u64)>) -> bool {
    forall|i: int, j: int| 0 <= i < j < s.len() ==> s[i].1 >= s[j].1
}

/// Inserts `x` behind every element whose score is at least `x`'s:
/// the insertion step of a stable descending sort.
pub open spec fn insert_desc<I>(s: Seq<(I, u64)>, x: (I, u64)) -> Seq<(I, u64)>
    decreases s.len(),
{
    if s.len() == 0 {
        seq![x]
    } else if s[0].1 >= x.1 {
        seq![s[0]] + insert_desc(s.drop_first(), x)
    } else {
        seq![x] + s
    }
}

/// Stable sort by non-increasing score.
pub open spec fn sort_desc<I>(s: Seq<(I, u64)>) -> Seq<(I, u64)>
    decreases s.len(),
{
    if s.len() == 0 {
        s
    } else {
        insert_desc(sort_desc(s.drop_last()), s.last())
    }
}

/// The full ranking of an index against a query: nonzero scores,
/// sorted by non-increasing score, ties in storage order.
pub open spec fn rank_spec<I>(entries: Seq<(I, Seq<(Seq<u8>, u64)>)>, q: Seq<(Seq<u8>, u64)>) -> Seq<
    (I, u64),
> {
    sort_desc(scored_spec(entries, q))
}

pub proof fn lemma_insert_desc_ensures<I>(s: Seq<(I, u64)>, x: (I, u64))
    requires
        sorted_desc(s),
    ensures
        sorted_desc(insert_desc(s, x)),
        insert_desc(s, x).to_multiset() == s.to_multiset().insert(x),
        insert_desc(s, x).len() == s.len() + 1,
        forall|k: int|
            0 <= k < insert_desc(s, x).len() ==> (#[trigger] insert_desc(s, x)[k] == x
                || s.contains(insert_desc(s, x)[k])),
    decreases s.len(),
{
    broadcast use vstd::seq_lib::group_to_multiset_ensures;

    let r = insert_desc(s, x);
    if s.len() == 0 {
        assert(r =~= Seq::<(I, u64)>::empty().push(x));
        assert(r.to_multiset() == s.to_multiset().insert(x));
    } else if s[0].1 >= x.1 {
        let tail = s.drop_first();
        assert(sorted_desc(tail)) by {
            assert(forall|i: int, j: int|
                0 <= i < j < tail.len() ==> tail[i] == s[i + 1] && tail[j] == s[j + 1]);
        }
        lemma_insert_desc_ensures(tail, x);
        let inner = insert_desc(tail, x);
        assert(r =~= seq![s[0]] + inner);
        // every element of the result is s[0], x, or an element of the tail
        assert forall|k: int| 0 <= k < r.len() implies (#[trigger] r[k] == x || s.contains(
            r[k],
        )) by {
            if k == 0 {
                assert(s[0] == r[0]);
                assert(s.contains(s[0]));
            } else {
                assert(r[k] == inner[k - 1]);
                if inner[k - 1] != x {
                    assert(tail.contains(inner[k - 1]));
                    let m = choose|m: int| 0 <= m < tail.len() && tail[m] == inner[k - 1];
                    assert(s[m + 1] == tail[m]);
                    assert(s.contains(s[m + 1]));
                }
            }
        }
        // sortedness: s[0]'s score bounds everything behind it
        assert forall|i: int, j: int| 0 <= i < j < r.len() implies r[i].1 >= r[j].1 by {
            if i == 0 {
                assert(r[j] == inner[j - 1]);
                if inner[j - 1] == x {
                    assert(s[0].1 >= x.1);
                } else {
                    assert(tail.contains(inner[j - 1]));
                    let m = choose|m: int| 0 <= m < tail.len() && tail[m] == inner[j - 1];
                    assert(s[0].1 >= s[m + 1].1);
                }
            } else {
                assert(r[i] == inner[i - 1] && r[j] == inner[j - 1]);
            }
        }
        // multisets: prepending an element inserts it
        assert(inner.to_multiset() == tail.to_multiset().insert(x));
        assert(r.to_multiset() == inner.to_multiset().insert(s[0])) by {
            assert(r =~= seq![s[0]] + inner);
            vstd::seq_lib::lemma_multiset_commutative(seq![s[0]], inner);
            assert(seq![s[0]].to_multiset() == Multiset::<(I, u64)>::empty().insert(s[0])) by {
                assert(seq![s[0]] =~= Seq::<(I, u64)>::empty().push(s[0]));
            }
            assert(Multiset::<(I, u64)>::empty().insert(s[0]).add(inner.to_multiset())
                =~= inner.to_multiset().insert(s[0]));
        }
        assert(s.to_multiset() == tail.to_multiset().insert(s[0])) by {
            assert(s =~= seq![s[0]] + tail);
            vstd::seq_lib::lemma_multiset_commutative(seq![s[0]], tail);
            assert(seq![s[0]].to_multiset() == Multiset::<(I, u64)>::empty().insert(s[0])) by {
                assert(seq![s[0]] =~= Seq::<(I, u64)>::empty().push(s[0]));
            }
            assert(Multiset::<(I, u64)>::empty().insert(s[0]).add(tail.to_multiset())
                =~= tail.to_multiset().insert(s[0]));
        }
        assert(r.to_multiset() =~= s.to_multiset().insert(x));
    } else {
        assert(r =~= seq![x] + s);
        assert forall|k: int| 0 <= k < r.len() implies (#[trigger] r[k] == x || s.contains(
            r[k],
        )) by {
            if k > 0 {
                assert(r[k] == s[k - 1]);
                assert(s.contains(s[k - 1]));
            }
        }
        assert forall|i: int, j: int| 0 <= i < j < r.len() implies r[i].1 >= r[j].1 by {
            if i == 0 {
                assert(r[j] == s[j - 1]);
                if j - 1 > 0 {
                    assert(s[0].1 >= s[j - 1].1);
                }
                assert(x.1 > s[0].1);
            }
        }
        vstd::seq_lib::lemma_multiset_commutative(seq![x], s);
        assert(seq![x].to_multiset() == Multiset::<(I, u64)>::empty().insert(x)) by {
            assert(seq![x] =~= Seq::<(I, u64)>::empty().push(x));
        }
        assert(Multiset::<(I, u64)>::empty().insert(x).add(s.to_multiset()) =~= s.to_multiset()
            .insert(x));
    }
}

pub proof fn lemma_sort_desc_ensures<I>(s: Seq<(I, u64)>)
    ensures
        sorted_desc(sort_desc(s)),
        sort_desc(s).to_multiset() == s.to_multiset(),
        sort_desc(s).len() == s.len(),
    decreases s.len(),
{
    broadcast use vstd::seq_lib::group_to_multiset_ensures;

    if s.len() > 0 {
        lemma_sort_desc_ensures(s.drop_last());
        lemma_insert_desc_ensures(sort_desc(s.drop_last()), s.last());
        assert(s =~= s.drop_last().push(s.last()));
        assert(s.to_multiset() == s.drop_last().to_multiset().insert(s.last()));
    }
}

/// Where the first smaller score sits is where the new element lands.
proof fn lemma_insert_desc_at<I>(s: Seq<(I, u64)>, x: (I, u64), j: int)
    requires
        0 <= j <= s.len(),
        forall|k: int| 0 <= k < j ==> s[k].1 >= x.1,
        j < s.len() ==> s[j].1 < x.1,
    ensures
        insert_desc(s, x) == s.take(j) + seq![x] + s.skip(j),
    decreases j,
{
    if j == 0 {
        if s.len() == 0 {
            assert(insert_desc(s, x) =~= s.take(0) + seq![x] + s.skip(0));
        } else {
            assert(insert_desc(s, x) =~= s.take(0) + seq![x] + s.skip(0));
        }
    } else {
        let tail = s.drop_first();
        assert(forall|k: int| 0 <= k < j - 1 ==> tail[k] == s[k + 1]);
        assert(j - 1 < tail.len() ==> tail[j - 1] == s[j]);
        lemma_insert_desc_at(tail, x, j - 1);
        assert(insert_desc(s, x) =~= s.take(j) + seq![x] + s.skip(j));
    }
}

/// Inserts one result into a descending-sorted vector, behind every
/// result whose score is at least as large.
fn insert_result<K: DocKey>(out: &mut Vec<ScoreResult<K>>, x: ScoreResult<K>)
    ensures
        res_models(final(out)@) == insert_desc(res_models(old(out)@), (x.id@, x.score_milli)),
{
    let ghost m = res_models(out@);
    let ghost xm = (x.id@, x.score_milli);
    let mut j: usize = 0;
    while j < out.len()
        invariant_except_break
            j <= m.len(),
            res_models(out@) == m,
            out@.len() == m.len(),
            xm == (x.id@, x.score_milli),
            forall|k: int| 0 <= k < j ==> m[k].1 >= xm.1,
        ensures
            j <= m.len(),
            res_models(out@) == m,
            out@.len() == m.len(),
            forall|k: int| 0 <= k < j ==> m[k].1 >= xm.1,
            j < m.len() ==> m[j as int].1 < xm.1,
        decreases m.len() - j,
    {
        proof {
            assert(m[j as int] == (out@[j as int].id@, out@[j as int].score_milli));
        }
        if out[j].score_milli < x.score_milli {
            break ;
        }
        j += 1;
    }
    proof {
        lemma_insert_desc_at(m, xm, j as int);
    }
    out.insert(j, x);
    proof {
        assert(res_models(out@) =~~= m.take(j as int) + seq![xm] + m.skip(j as int));
    }
}

/// Insert-or-overwrite: replaces the entry bound to `k`, appending a
/// new entry when `k` is absent.
pub open spec fn upsert_spec<I, E>(s: Seq<(I, E)>, k: I, e: E) -> Seq<(I, E)>
    decreases s.len(),
{
    if s.len() == 0 {
        seq![(k, e)]
    } else if s[0].0 == k {
        seq![(k, e)] + s.drop_first()
    } else {
        seq![s[0]] + upsert_spec(s.drop_first(), k, e)
    }
}

/// Every identifier is bound at most once.
pub open spec fn unique_keys<I, E>(s: Seq<(I, E)>) -> bool {
    forall|i: int, j: int| 0 <= i < j < s.len() ==> s[i].0 != s[j].0
}

/// Whether some entry is bound to `k`.
pub open spec fn has_id<I, E>(s: Seq<(I, E)>, k: I) -> bool {
    exists|i: int| 0 <= i < s.len() && s[i].0 == k
}

/// The number of entries bound to `k`.
pub open spec fn key_count<I, E>(s: Seq<(I, E)>, k: I) -> nat {
    s.filter(|p: (I, E)| p.0 == k).len()
}

/// The value bound to `k`, if any.
pub open spec fn entry_of<I, E>(s: Seq<(I, E)>, k: I) -> Option<E>
    decreases s.len(),
{
    if s.len() == 0 {
        None
    } else if s[0].0 == k {
        Some(s[0].1)
    } else {
        entry_of(s.drop_first(), k)
    }
}

pub proof fn lemma_upsert_update<I, E>(s: Seq<(I, E)>, k: I, e: E, j: int)
    requires
        0 <= j < s.len(),
        s[j].0 == k,
        forall|m: int| 0 <= m < j ==> s[m].0 != k,
    ensures
        upsert_spec(s, k, e) == s.update(j, (k, e)),
    decreases j,
{
    if j == 0 {
        assert(upsert_spec(s, k, e) =~= s.update(0, (k, e)));
    } else {
        lemma_upsert_update(s.drop_first(), k, e, j - 1);
        assert(upsert_spec(s, k, e) =~= s.update(j, (k, e)));
    }
}

pub proof fn lemma_upsert_append<I, E>(s: Seq<(I, E)>, k: I, e: E)
    requires
        forall|m: int| 0 <= m < s.len() ==> s[m].0 != k,
    ensures
        upsert_spec(s, k, e) == s.push((k, e)),
    decreases s.len(),
{
    if s.len() == 0 {
        assert(upsert_spec(s, k, e) =~= s.push((k, e)));
    } else {
        lemma_upsert_append(s.drop_first(), k, e);
        assert(upsert_spec(s, k, e) =~= s.push((k, e)));
    }
}

/// An upsert on a uniquely-keyed index keeps the keys unique, binds
/// `k` to `e`, and leaves every other binding as it was.
pub proof fn lemma_upsert_props<I, E>(s: Seq<(I, E)>, k: I, e: E)
    requires
        unique_keys(s),
    ensures
        unique_keys(upsert_spec(s, k, e)),
        entry_of(upsert_spec(s, k, e), k) == Some(e),
        has_id(s, k) ==> upsert_spec(s, k, e).len() == s.len(),
        !has_id(s, k) ==> upsert_spec(s, k, e).len() == s.len() + 1,
    decreases s.len(),
{
    let r = upsert_spec(s, k, e);
    if s.len() == 0 {
        assert(r[0].0 == k);
    } else if s[0].0 == k {
        assert(r =~= seq![(k, e)] + s.drop_first());
        assert(r[0] == (k, e));
        assert(forall|i: int| 0 < i < r.len() ==> r[i] == s[i]);
        assert(unique_keys(r)) by {
            assert(forall|i: int, j: int|
                0 < i < j < r.len() ==> r[i].0 == s[i].0 && r[j].0 == s[j].0);
            assert(forall|j: int| 0 < j < r.len() ==> s[0].0 != #[trigger] s[j].0);
        }
        assert(has_id(s, k));
    } else {
        let tail = s.drop_first();
        assert(unique_keys(tail)) by {
            assert(forall|i: int, j: int|
                0 <= i < j < tail.len() ==> tail[i] == s[i + 1] && tail[j] == s[j + 1]);
        }
        lemma_upsert_props(tail, k, e);
        let rt = upsert_spec(tail, k, e);
        assert(r =~= seq![s[0]] + rt);
        assert(r.drop_first() =~= rt);
        assert(entry_of(r, k) == entry_of(rt, k));
        // the new tail holds the old tail's keys plus possibly k
        assert(unique_keys(r)) by {
            if has_id(tail, k) {
                assert(rt =~= tail.update(
                    choose|j: int|
                        0 <= j < tail.len() && tail[j].0 == k && (forall|m: int|
                            0 <= m < j ==> tail[m].0 != k),
                    (k, e),
                )) by {
                    let j = choose|j: int|
                        0 <= j < tail.len() && tail[j].0 == k && (forall|m: int|
                            0 <= m < j ==> tail[m].0 != k);
                    lemma_upsert_update(tail, k, e, j);
                }
            } else {
                lemma_upsert_append(tail, k, e);
            }
            assert(forall|i: int|
                0 <= i < rt.len() ==> rt[i].0 == k || (i < tail.len() && rt[i].0 == tail[i].0));
            assert(forall|i: int, j: int| 0 < i < j < r.len() ==> r[i] == rt[i - 1] && r[j]
                == rt[j - 1]);
            assert(forall|j: int| 0 < j < r.len() ==> r[0].0 != #[trigger] r[j].0) by {
                assert(s[0].0 != k);
                assert(forall|i: int| 0 <= i < tail.len() ==> s[0].0 != #[trigger] tail[i].0);
            }
        }
        assert(has_id(s, k) <==> has_id(tail, k)) by {
            if has_id(s, k) {
                let i = choose|i: int| 0 <= i < s.len() && s[i].0 == k;
                assert(i > 0);
                assert(tail[i - 1].0 == k);
            }
            if has_id(tail, k) {
                let i = choose|i: int| 0 <= i < tail.len() && tail[i].0 == k;
                assert(s[i + 1].0 == k);
            }
        }
    }
}

/// The first index bound to `k` in a uniquely-keyed index is the only
/// one, so exactly one entry for `k` remains after an upsert.
pub proof fn lemma_unique_key_count<I, E>(s: Seq<(I, E)>, k: I)
    requires
        unique_keys(s),
    ensures
        has_id(s, k) ==> key_count(s, k) == 1,
        !has_id(s, k) ==> key_count(s, k) == 0,
    decreases s.len(),
{
    broadcast use vstd::seq_lib::group_filter_ensures;

    let pred = |p: (I, E)| p.0 == k;
    if s.len() == 0 {
        assert(s.filter(pred) =~= Seq::<(I, E)>::empty());
    } else {
        let t = s.drop_last();
        assert(unique_keys(t)) by {
            assert(forall|i: int, j: int| 0 <= i < j < t.len() ==> t[i] == s[i] && t[j] == s[j]);
        }
        lemma_unique_key_count(t, k);
        assert(s =~= t.push(s.last()));
        t.lemma_filter_len_push(pred, s.last());
        if s.last().0 == k {
            assert(!has_id(t, k)) by {
                if has_id(t, k) {
                    let i = choose|i: int| 0 <= i < t.len() && t[i].0 == k;
                    assert(s[i].0 == s[s.len() - 1].0);
                    assert(false);
                }
            }
            assert(has_id(s, k)) by {
                assert(s[s.len() - 1].0 == k);
            }
            assert(key_count(s, k) == 1);
        } else {
            assert(has_id(s, k) <==> has_id(t, k)) by {
                if has_id(s, k) {
                    let i = choose|i: int| 0 <= i < s.len() && s[i].0 == k;
                    assert(i < t.len() && t[i].0 == k);
                }
                if has_id(t, k) {
                    let i = choose|i: int| 0 <= i < t.len() && t[i].0 == k;
                    assert(s[i].0 == k);
                }
            }
        }
    }
}

/// One stored entry: a document identifier and its embedding.
pub struct Entry<K: DocKey> {
    pub key: K,
    pub emb: Embedding,
}

/// The mathematical value of the stored entries.
pub open spec fn entries_model<K: DocKey>(s: Seq<Entry<K>>) -> Seq<(K::V, Seq<(Seq<u8>, u64)>)> {
    s.map_values(|e: Entry<K>| (e.key@, emb_model(e.emb)))
}

/// The index: one embedding per document identifier, in first-upsert
/// order.
pub struct Scorer<K: DocKey> {
    pub entries: Vec<Entry<K>>,
}

impl<K: DocKey> Scorer<K> {
    /// The stored (identifier, embedding) sequence.
    pub open spec fn model(self) -> Seq<(K::V, Seq<(Seq<u8>, u64)>)> {
        entries_model(self.entries@)
    }

    /// Well-formedness: each identifier is stored at most once.
    pub open spec fn wf(self) -> bool {
        unique_keys(self.model())
    }

    /// An empty index.
    pub fn new() -> (r: Scorer<K>)
        ensures
            r.model() == Seq::<(K::V, Seq<(Seq<u8>, u64)>)>::empty(),
            r.wf(),
    {
        let r = Scorer { entries: Vec::new() };
        proof {
            assert(r.model() =~~= Seq::<(K::V, Seq<(Seq<u8>, u64)>)>::empty());
        }
        r
    }

    /// Inserts or overwrites the entry for `key`. The identifier
    /// stays stored at most once.
    pub fn upsert(&mut self, key: K, emb: Embedding)
        requires
            old(self).wf(),
        ensures
            final(self).model() == upsert_spec(old(self).model(), key@, emb_model(emb)),
            final(self).wf(),
    {
        let ghost m0 = self.model();
        let ghost km = key@;
        let ghost em = emb_model(emb);
        proof {
            lemma_upsert_props(m0, km, em);
        }
        let mut i: usize = 0;
        while i < self.entries.len()
            invariant
                i <= m0.len(),
                self.model() == m0,
                m0 == old(self).model(),
                self.entries@.len() == m0.len(),
                km == key@,
                em == emb_model(emb),
                unique_keys(m0),
                forall|k: int| 0 <= k < i ==> m0[k].0 != km,
            decreases m0.len() - i,
        {
            proof {
                assert(m0[i as int] == (self.entries@[i as int].key@, emb_model(
                    self.entries@[i as int].emb,
                )));
            }
            if self.entries[i].key.key_eq(&key) {
                let e = self.entries.remove(i);
                self.entries.insert(i, Entry { key, emb });
                proof {
                    lemma_upsert_update(m0, km, em, i as int);
                    lemma_upsert_props(m0, km, em);
                    assert(self.model() =~~= m0.update(i as int, (km, em)));
                }
                return ;
            }
            i += 1;
        }
        self.entries.push(Entry { key, emb });
        proof {
            lemma_upsert_append(m0, km, em);
            assert(self.model() =~~= m0.push((km, em)));
        }
    }

    /// Ranks every stored document against the query embedding:
    /// every document with a nonzero score, sorted by non-increasing
    /// score, ties in first-upsert order.
    pub fn matches(&self, q: &Embedding) -> (r: Vec<ScoreResult<K>>)
        ensures
            res_models(r@) == rank_spec(self.model(), emb_model(*q)),
            sorted_desc(res_models(r@)),
    {
        broadcast use Seq::lemma_filter_push;

        let ghost em = self.model();
        let ghost qm = emb_model(*q);
        let ghost mapf = |e: (K::V, Seq<(Seq<u8>, u64)>)| (e.0, dot_spec(qm, e.1));
        let ghost keepf = |p: (K::V, u64)| p.1 > 0;
        let mut scored: Vec<ScoreResult<K>> = Vec::new();
        proof {
            assert(em.take(0) =~= Seq::<(K::V, Seq<(Seq<u8>, u64)>)>::empty());
            assert(scored_spec(em.take(0), qm) =~= Seq::<(K::V, u64)>::empty());
            assert(res_models(scored@) =~~= Seq::<(K::V, u64)>::empty());
        }
        let mut i: usize = 0;
        while i < self.entries.len()
            invariant
                i <= em.len(),
                self.model() == em,
                emb_model(*q) == qm,
                self.entries@.len() == em.len(),
                mapf == (|e: (K::V, Seq<(Seq<u8>, u64)>)| (e.0, dot_spec(qm, e.1))),
                keepf == (|p: (K::V, u64)| p.1 > 0),
                res_models(scored@) == scored_spec(em.take(i as int), qm),
            decreases em.len() - i,
        {
            proof {
                assert(em[i as int] == (self.entries@[i as int].key@, emb_model(
                    self.entries@[i as int].emb,
                )));
            }
            let ghost pre = res_models(scored@);
            let sc = dot_milli(q, &self.entries[i].emb);
            proof {
                let mt = em.take(i as int).map_values(mapf);
                let x = mapf(em[i as int]);
                assert(em.take(i + 1) =~= em.take(i as int).push(em[i as int]));
                assert(em.take(i + 1).map_values(mapf) =~= mt.push(x));
                mt.lemma_filter_push(x, keepf);
                assert(x == (em[i as int].0, sc));
                assert(scored_spec(em.take(i + 1), qm) == if keepf(x) {
                    pre.push(x)
                } else {
                    pre
                });
            }
            if sc > 0 {
                let id = self.entries[i].key.dup();
                scored.push(ScoreResult { id, score_milli: sc });
                proof {
                    assert(res_models(scored@) =~~= pre.push((em[i as int].0, sc)));
                }
            }
            i += 1;
        }
        proof {
            assert(em.take(em.len() as int) =~= em);
        }
        let ghost sm = scored_spec(em, qm);
        let mut out: Vec<ScoreResult<K>> = Vec::new();
        proof {
            assert(sm.take(0) =~= Seq::<(K::V, u64)>::empty());
            assert(res_models(out@) =~~= Seq::<(K::V, u64)>::empty());
        }
        let mut j: usize = 0;
        while j < scored.len()
            invariant
                j <= sm.len(),
                res_models(scored@) == sm,
                scored@.len() == sm.len(),
                res_models(out@) == sort_desc(sm.take(j as int)),
            decreases sm.len() - j,
        {
            proof {
                assert(sm[j as int] == (scored@[j as int].id@, scored@[j as int].score_milli));
                assert(sm.take(j + 1).drop_last() =~= sm.take(j as int));
                assert(sm.take(j + 1).last() == sm[j as int]);
            }
            let id = scored[j].id.dup();
            let x = ScoreResult { id, score_milli: scored[j].score_milli };
            insert_result(&mut out, x);
            j += 1;
        }
        proof {
            assert(sm.take(sm.len() as int) =~= sm);
            lemma_sort_desc_ensures(sm);
        }
        out
    }
}

} // verus!
