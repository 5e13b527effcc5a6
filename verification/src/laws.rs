//! Library-wide laws, stated and proved over the abstract models.
//!
//! Sortedness of rankings and exactness of result counts are ensured
//! directly on `Scorer::matches`, `Model::query` and `score`; the
//! laws here relate several operations: repeated upserts, repeated
//! rebuilds, and queries against an empty corpus.

use vstd::prelude::*;

use crate::arith::cap_u64;
use crate::embed::{
    doc_terms_rec, fit_dfs_spec, has_key, lemma_df_add_doc_effect, lemma_doc_terms_unique,
    lookup,
};
use crate::text::tokens_spec;
use crate::index::{
    entry_of, has_id, key_count, lemma_unique_key_count, lemma_upsert_props, unique_keys,
    upsert_spec, DocKey,
};
use crate::model::{
    build_index_spec, corpus_texts, fit_stats_spec, populated_from, query_spec, Model,
};

verus! {

/// An identifier is bound exactly when some entry holds it.
pub proof fn lemma_entry_of_has_id<I, E>(s: Seq<(I, E)>, k: I)
    ensures
        entry_of(s, k) is Some <==> has_id(s, k),
    decreases s.len(),
{
    if s.len() == 0 {
    } else if s[0].0 == k {
        assert(0 <= 0 < s.len() && s[0].0 == k);
    } else {
        let tail = s.drop_first();
        lemma_entry_of_has_id(tail, k);
        if has_id(tail, k) {
            let i = choose|i: int| 0 <= i < tail.len() && tail[i].0 == k;
            assert(s[i + 1].0 == k);
        }
        if has_id(s, k) {
            let i = choose|i: int| 0 <= i < s.len() && s[i].0 == k;
            assert(i > 0);
            assert(tail[i - 1].0 == k);
        }
    }
}

/// Upserting the same identifier twice leaves exactly one entry for
/// that identifier in the index, holding the latest embedding.
pub proof fn lemma_upsert_same_id_twice<I, E>(s: Seq<(I, E)>, k: I, e1: E, e2: E)
    requires
        unique_keys(s),
    ensures
        key_count(upsert_spec(upsert_spec(s, k, e1), k, e2), k) == 1,
        entry_of(upsert_spec(upsert_spec(s, k, e1), k, e2), k) == Some(e2),
{
    lemma_upsert_props(s, k, e1);
    let s1 = upsert_spec(s, k, e1);
    lemma_upsert_props(s1, k, e2);
    let s2 = upsert_spec(s1, k, e2);
    lemma_entry_of_has_id(s2, k);
    lemma_unique_key_count(s2, k);
}

/// A rebuild is a function of the corpus alone: two models populated
/// from one corpus hold the same statistics and index, and every
/// query returns the same ranked results on both. In particular,
/// rebuilding twice in a row from an unchanged corpus leaves exactly
/// the state that one rebuild leaves.
pub proof fn lemma_populate_idempotent<K: DocKey>(
    m1: Model<K>,
    m2: Model<K>,
    c: Seq<(K::V, Seq<u8>)>,
    q: Seq<u8>,
)
    requires
        populated_from(m1, c),
        populated_from(m2, c),
    ensures
        m1.stats() == m2.stats(),
        m1.index() == m2.index(),
        query_spec(m1.stats(), m1.index(), q) == query_spec(m2.stats(), m2.index(), q),
{
}

/// Whether a text contains a term (directly or through its stem).
pub open spec fn doc_has_term(text: Seq<u8>, t: Seq<u8>) -> bool {
    has_key(doc_terms_rec(tokens_spec(text)), t)
}

/// How many texts of a corpus contain a term.
pub open spec fn doc_count_with_term(texts: Seq<Seq<u8>>, t: Seq<u8>) -> nat {
    texts.filter(|x: Seq<u8>| doc_has_term(x, t)).len()
}

/// The document frequency a fit freezes for a term is the number of
/// documents containing that term at least once (saturating at the
/// weight range), and a term is in the table exactly when some
/// document contains it.
pub proof fn lemma_df_counts_documents(texts: Seq<Seq<u8>>, t: Seq<u8>)
    ensures
        lookup(fit_dfs_spec(texts), t) == cap_u64(doc_count_with_term(texts, t)),
        has_key(fit_dfs_spec(texts), t) <==> doc_count_with_term(texts, t) > 0,
    decreases texts.len(),
{
    let pred = |x: Seq<u8>| doc_has_term(x, t);
    if texts.len() == 0 {
        assert(texts.filter(pred) =~= Seq::<Seq<u8>>::empty());
        assert(lookup(fit_dfs_spec(texts), t) == 0);
        assert(!has_key(fit_dfs_spec(texts), t));
    } else {
        let front = texts.drop_last();
        lemma_df_counts_documents(front, t);
        lemma_doc_terms_unique(tokens_spec(texts.last()));
        lemma_df_add_doc_effect(
            fit_dfs_spec(front),
            doc_terms_rec(tokens_spec(texts.last())),
            t,
        );
        assert(texts =~= front.push(texts.last()));
        front.lemma_filter_len_push(pred, texts.last());
        assert(doc_count_with_term(texts, t) == doc_count_with_term(front, t) + (if pred(
            texts.last(),
        ) {
            1int
        } else {
            0int
        }));
    }
}

/// A query returns one result per stored document with a nonzero
/// score: sorting changes no count.
pub proof fn lemma_result_count<I>(
    st: (Seq<(Seq<u8>, u64)>, u64, u64),
    idx: Seq<(I, Seq<(Seq<u8>, u64)>)>,
    q: Seq<u8>,
)
    ensures
        query_spec(st, idx, q).len() == crate::index::scored_spec(
            idx,
            crate::embed::embed_spec(st.0, st.1, st.2, q),
        ).len(),
{
    crate::index::lemma_sort_desc_ensures(
        crate::index::scored_spec(idx, crate::embed::embed_spec(st.0, st.1, st.2, q)),
    );
}

/// After a rebuild from an empty corpus, every query returns the
/// empty result sequence.
pub proof fn lemma_empty_corpus_query_empty<K: DocKey>(m: Model<K>, q: Seq<u8>)
    requires
        populated_from(m, Seq::<(K::V, Seq<u8>)>::empty()),
    ensures
        query_spec(m.stats(), m.index(), q) == Seq::<(K::V, u64)>::empty(),
{
    let c = Seq::<(K::V, Seq<u8>)>::empty();
    let st = fit_stats_spec(corpus_texts(c));
    assert(m.index() == build_index_spec(c, st));
    assert(m.index() =~= Seq::<(K::V, Seq<(Seq<u8>, u64)>)>::empty());
    let e = crate::embed::embed_spec(m.stats().0, m.stats().1, m.stats().2, q);
    let mapped = m.index().map_values(
        |p: (K::V, Seq<(Seq<u8>, u64)>)| (p.0, crate::index::dot_spec(e, p.1)),
    );
    assert(mapped =~= Seq::<(K::V, u64)>::empty());
    assert(mapped.filter(|p: (K::V, u64)| p.1 > 0) =~= Seq::<(K::V, u64)>::empty());
    assert(query_spec(m.stats(), m.index(), q) =~= Seq::<(K::V, u64)>::empty());
}

} // verus!
