//! The embedder: corpus statistics frozen at fit time, and the
//! conversion of a text into a sparse term-weight vector.
//!
//! A term-weight vector is an association list from term to a positive
//! weight in milli-units. Each token contributes a full token weight to
//! its own term and, when the stem differs, half a token weight to the
//! stemmed term, so an exact term match always outweighs a match that
//! only the stemmer produces.
//!
//! The weight of a term in a text combines the term's corpus-wide
//! rarity (a rational inverse document frequency) with a saturating
//! function of the term's frequency in the text, normalized by the
//! text's length relative to the corpus average.

use vstd::prelude::*;

use crate::arith::{cap_u64, sat_add, sat_add_spec, sat_mul, sat_mul_spec, SCALE_MILLI};
use crate::text::{bytes_eq, dup_bytes, stem, stem_spec, tokenize, tokens_spec};

verus! {

/// Milli-weight a token adds to its own term.
pub const TOKEN_WEIGHT_MILLI: u64 = 1000;

/// Milli-weight a token adds to its stemmed term when the stem differs.
pub const STEM_WEIGHT_MILLI: u64 = 500;

/// Term-frequency saturation strength, in milli-units (the classical k1).
pub const SATURATION_MILLI: u64 = 1200;

/// Length-normalization strength, in milli-units (the classical b).
pub const LENGTH_NORM_MILLI: u64 = 750;

/// One entry of an association list from term to value.
pub struct TermVal {
    pub term: Vec<u8>,
    pub val: u64,
}

/// The mathematical value of one entry.
pub open spec fn tv_model(tv: TermVal) -> (Seq<u8>, u64) {
    (tv.term@, tv.val)
}

/// The mathematical value of an association list.
pub open spec fn tvs_model(s: Seq<TermVal>) -> Seq<(Seq<u8>, u64)> {
    s.map_values(|tv: TermVal| tv_model(tv))
}

/// The value bound to `t`, or zero where `t` is absent.
pub open spec fn lookup(s: Seq<(Seq<u8>, u64)>, t: Seq<u8>) -> u64
    decreases s.len(),
{
    if s.len() == 0 {
        0
    } else if s[0].0 == t {
        s[0].1
    } else {
        lookup(s.drop_first(), t)
    }
}

/// Whether `t` is bound in the list.
pub open spec fn has_key(s: Seq<(Seq<u8>, u64)>, t: Seq<u8>) -> bool
    decreases s.len(),
{
    if s.len() == 0 {
        false
    } else {
        s[0].0 == t || has_key(s.drop_first(), t)
    }
}

/// Adds `w` (saturating) to the value bound to `t`, appending a new
/// entry when `t` is absent.
pub open spec fn add_val(s: Seq<(Seq<u8>, u64)>, t: Seq<u8>, w: u64) -> Seq<(Seq<u8>, u64)>
    decreases s.len(),
{
    if s.len() == 0 {
        seq![(t, w)]
    } else if s[0].0 == t {
        seq![(s[0].0, sat_add_spec(s[0].1, w))] + s.drop_first()
    } else {
        seq![s[0]] + add_val(s.drop_first(), t, w)
    }
}

pub proof fn lemma_add_val_update(s: Seq<(Seq<u8>, u64)>, t: Seq<u8>, w: u64, j: int)
    requires
        0 <= j < s.len(),
        s[j].0 == t,
        forall|k: int| 0 <= k < j ==> s[k].0 != t,
    ensures
        add_val(s, t, w) == s.update(j, (s[j].0, sat_add_spec(s[j].1, w))),
    decreases j,
{
    if j == 0 {
        assert(add_val(s, t, w) =~= s.update(0, (s[0].0, sat_add_spec(s[0].1, w))));
    } else {
        lemma_add_val_update(s.drop_first(), t, w, j - 1);
        assert(add_val(s, t, w) =~= s.update(j, (s[j].0, sat_add_spec(s[j].1, w))));
    }
}

pub proof fn lemma_add_val_append(s: Seq<(Seq<u8>, u64)>, t: Seq<u8>, w: u64)
    requires
        forall|k: int| 0 <= k < s.len() ==> s[k].0 != t,
    ensures
        add_val(s, t, w) == s.push((t, w)),
    decreases s.len(),
{
    if s.len() == 0 {
        assert(add_val(s, t, w) =~= s.push((t, w)));
    } else {
        lemma_add_val_append(s.drop_first(), t, w);
        assert(add_val(s, t, w) =~= s.push((t, w)));
    }
}

pub proof fn lemma_lookup_at(s: Seq<(Seq<u8>, u64)>, t: Seq<u8>, j: int)
    requires
        0 <= j < s.len(),
        s[j].0 == t,
        forall|k: int| 0 <= k < j ==> s[k].0 != t,
    ensures
        has_key(s, t),
        lookup(s, t) == s[j].1,
    decreases j,
{
    if j > 0 {
        lemma_lookup_at(s.drop_first(), t, j - 1);
    }
}

pub proof fn lemma_lookup_absent(s: Seq<(Seq<u8>, u64)>, t: Seq<u8>)
    requires
        !has_key(s, t),
    ensures
        lookup(s, t) == 0,
    decreases s.len(),
{
    if s.len() > 0 {
        lemma_lookup_absent(s.drop_first(), t);
    }
}

pub proof fn lemma_no_key(s: Seq<(Seq<u8>, u64)>, t: Seq<u8>)
    requires
        forall|k: int| 0 <= k < s.len() ==> s[k].0 != t,
    ensures
        !has_key(s, t),
        lookup(s, t) == 0,
    decreases s.len(),
{
    if s.len() > 0 {
        lemma_no_key(s.drop_first(), t);
    }
}

/// Each term is bound at most once in the list.
pub open spec fn unique_terms(s: Seq<(Seq<u8>, u64)>) -> bool {
    forall|i: int, j: int| 0 <= i < j < s.len() ==> s[i].0 != s[j].0
}

/// A term is bound exactly when some entry holds it.
pub proof fn lemma_has_key_index(s: Seq<(Seq<u8>, u64)>, t: Seq<u8>)
    ensures
        has_key(s, t) <==> exists|i: int| 0 <= i < s.len() && s[i].0 == t,
    decreases s.len(),
{
    if s.len() > 0 {
        let tail = s.drop_first();
        lemma_has_key_index(tail, t);
        if s[0].0 == t {
            assert(0 <= 0 < s.len() && s[0].0 == t);
        }
        if has_key(tail, t) {
            let i = choose|i: int| 0 <= i < tail.len() && tail[i].0 == t;
            assert(s[i + 1].0 == t);
        }
        if exists|i: int| 0 <= i < s.len() && s[i].0 == t {
            let i = choose|i: int| 0 <= i < s.len() && s[i].0 == t;
            if i > 0 {
                assert(tail[i - 1].0 == t);
            }
        }
    }
}

/// The full effect of `add_val` on every lookup: the touched term's
/// value grows by `w` (saturating), every other binding is unchanged.
pub proof fn lemma_add_val_effect(s: Seq<(Seq<u8>, u64)>, t: Seq<u8>, w: u64, t2: Seq<u8>)
    ensures
        lookup(add_val(s, t, w), t2) == if t2 == t {
            sat_add_spec(lookup(s, t), w)
        } else {
            lookup(s, t2)
        },
        has_key(add_val(s, t, w), t2) == (has_key(s, t2) || t2 == t),
    decreases s.len(),
{
    let r = add_val(s, t, w);
    if s.len() == 0 {
        assert(r.len() == 1);
        assert(r[0] == (t, w));
        assert(r.drop_first() =~= Seq::<(Seq<u8>, u64)>::empty());
        assert(!has_key(Seq::<(Seq<u8>, u64)>::empty(), t2));
        assert(lookup(Seq::<(Seq<u8>, u64)>::empty(), t2) == 0);
        assert(lookup(s, t2) == 0);
        assert(lookup(s, t) == 0);
        assert(lookup(r, t2) == if r[0].0 == t2 {
            r[0].1
        } else {
            lookup(r.drop_first(), t2)
        });
    } else if s[0].0 == t {
        assert(r.len() == 1 + s.drop_first().len());
        assert(r[0] == (s[0].0, sat_add_spec(s[0].1, w)));
        assert(r.drop_first() =~= s.drop_first());
        assert(lookup(r, t2) == if r[0].0 == t2 {
            r[0].1
        } else {
            lookup(r.drop_first(), t2)
        });
        assert(lookup(s, t2) == if s[0].0 == t2 {
            s[0].1
        } else {
            lookup(s.drop_first(), t2)
        });
    } else {
        lemma_add_val_effect(s.drop_first(), t, w, t2);
        assert(r.len() == 1 + add_val(s.drop_first(), t, w).len());
        assert(r[0] == s[0]);
        assert(r.drop_first() =~= add_val(s.drop_first(), t, w));
        assert(lookup(r, t2) == if r[0].0 == t2 {
            r[0].1
        } else {
            lookup(r.drop_first(), t2)
        });
        assert(lookup(s, t2) == if s[0].0 == t2 {
            s[0].1
        } else {
            lookup(s.drop_first(), t2)
        });
        if t2 == t {
            assert(s[0].0 != t2);
            assert(lookup(r, t2) == sat_add_spec(lookup(s.drop_first(), t), w));
        }
    }
}

/// Terms stay uniquely bound under `add_val`.
pub proof fn lemma_add_val_unique(s: Seq<(Seq<u8>, u64)>, t: Seq<u8>, w: u64)
    requires
        unique_terms(s),
    ensures
        unique_terms(add_val(s, t, w)),
{
    lemma_has_key_index(s, t);
    let r = add_val(s, t, w);
    if has_key(s, t) {
        let j = choose|j: int| 0 <= j < s.len() && s[j].0 == t;
        assert(forall|m: int| 0 <= m < j ==> s[m].0 != t) by {
            assert(forall|m: int| 0 <= m < j ==> #[trigger] s[m].0 != s[j].0);
        }
        lemma_add_val_update(s, t, w, j);
        assert(forall|i: int| 0 <= i < r.len() ==> #[trigger] r[i].0 == s[i].0);
    } else {
        lemma_add_val_append(s, t, w);
        assert(forall|i: int| 0 <= i < s.len() ==> r[i] == s[i]);
        assert(forall|i: int| 0 <= i < s.len() ==> #[trigger] s[i].0 != t);
    }
}

/// The term milli-counts of a document bind each term once.
pub proof fn lemma_doc_terms_unique(toks: Seq<Seq<u8>>)
    ensures
        unique_terms(doc_terms_rec(toks)),
    decreases toks.len(),
{
    if toks.len() > 0 {
        lemma_doc_terms_unique(toks.drop_last());
        let prev = doc_terms_rec(toks.drop_last());
        let t = toks.last();
        lemma_add_val_unique(prev, t, TOKEN_WEIGHT_MILLI);
        if stem_spec(t) != t {
            lemma_add_val_unique(add_val(prev, t, TOKEN_WEIGHT_MILLI), stem_spec(t), STEM_WEIGHT_MILLI);
        }
    }
}

/// One document raises the frequency of exactly its own terms, each
/// by one.
pub proof fn lemma_df_add_doc_effect(
    table: Seq<(Seq<u8>, u64)>,
    dterms: Seq<(Seq<u8>, u64)>,
    t: Seq<u8>,
)
    requires
        unique_terms(dterms),
    ensures
        lookup(df_add_doc(table, dterms), t) == if has_key(dterms, t) {
            sat_add_spec(lookup(table, t), 1)
        } else {
            lookup(table, t)
        },
        has_key(df_add_doc(table, dterms), t) == (has_key(table, t) || has_key(dterms, t)),
    decreases dterms.len(),
{
    lemma_has_key_index(dterms, t);
    if dterms.len() == 0 {
    } else {
        let front = dterms.drop_last();
        assert(forall|i: int| 0 <= i < front.len() ==> front[i] == dterms[i]);
        lemma_df_add_doc_effect(table, front, t);
        lemma_add_val_effect(df_add_doc(table, front), dterms.last().0, 1, t);
        lemma_has_key_index(front, t);
        if t == dterms.last().0 {
            assert(dterms[dterms.len() - 1].0 == t);
            if has_key(front, t) {
                let i = choose|i: int| 0 <= i < front.len() && front[i].0 == t;
                assert(dterms[i].0 == dterms[dterms.len() - 1].0);
                assert(false);
            }
        } else {
            if has_key(front, t) {
                let i = choose|i: int| 0 <= i < front.len() && front[i].0 == t;
                assert(dterms[i].0 == t);
            }
            if has_key(dterms, t) {
                let i = choose|i: int| 0 <= i < dterms.len() && dterms[i].0 == t;
                assert(i < dterms.len() - 1);
                assert(front[i].0 == t);
            }
        }
    }
}

/// Adds `w` to the entry for `t` in an executable association list.
pub fn add_val_x(v: &mut Vec<TermVal>, t: &Vec<u8>, w: u64)
    ensures
        tvs_model(final(v)@) == add_val(tvs_model(old(v)@), t@, w),
{
    let ghost m0 = tvs_model(v@);
    let mut i: usize = 0;
    while i < v.len()
        invariant
            i <= v@.len(),
            v@ == old(v)@,
            m0 == tvs_model(v@),
            forall|k: int| 0 <= k < i ==> m0[k].0 != t@,
        decreases v@.len() - i,
    {
        if bytes_eq(&v[i].term, t) {
            let e = v.remove(i);
            let nv = sat_add(e.val, w);
            v.insert(i, TermVal { term: e.term, val: nv });
            proof {
                lemma_add_val_update(m0, t@, w, i as int);
                assert(tvs_model(v@) =~~= m0.update(i as int, (m0[i as int].0, sat_add_spec(
                    m0[i as int].1,
                    w,
                ))));
            }
            return ;
        }
        i += 1;
    }
    v.push(TermVal { term: dup_bytes(t), val: w });
    proof {
        lemma_add_val_append(m0, t@, w);
        assert(tvs_model(v@) =~~= m0.push((t@, w)));
    }
}

/// The value bound to `t`, if any, in an executable association list.
pub fn find_val(v: &Vec<TermVal>, t: &Vec<u8>) -> (r: Option<u64>)
    ensures
        r is Some <==> has_key(tvs_model(v@), t@),
        r is Some ==> r->Some_0 == lookup(tvs_model(v@), t@),
    decreases v@.len(),
{
    let ghost m = tvs_model(v@);
    let mut i: usize = 0;
    while i < v.len()
        invariant
            i <= v@.len(),
            m == tvs_model(v@),
            forall|k: int| 0 <= k < i ==> m[k].0 != t@,
        decreases v@.len() - i,
    {
        if bytes_eq(&v[i].term, t) {
            proof {
                lemma_lookup_at(m, t@, i as int);
            }
            return Some(v[i].val);
        }
        i += 1;
    }
    proof {
        lemma_no_key(m, t@);
    }
    None
}

/// The term milli-counts of one token sequence: each token adds a full
/// weight to its own term and half a weight to a differing stem.
pub open spec fn doc_terms_rec(toks: Seq<Seq<u8>>) -> Seq<(Seq<u8>, u64)>
    decreases toks.len(),
{
    if toks.len() == 0 {
        Seq::empty()
    } else {
        let prev = doc_terms_rec(toks.drop_last());
        let t = toks.last();
        let w1 = add_val(prev, t, TOKEN_WEIGHT_MILLI);
        if stem_spec(t) != t {
            add_val(w1, stem_spec(t), STEM_WEIGHT_MILLI)
        } else {
            w1
        }
    }
}

/// The term milli-counts of a tokenized text.
pub fn doc_terms(toks: &Vec<Vec<u8>>) -> (r: Vec<TermVal>)
    ensures
        tvs_model(r@) == doc_terms_rec(toks.deep_view()),
{
    let ghost dv = toks.deep_view();
    let mut r: Vec<TermVal> = Vec::new();
    proof {
        assert(dv.take(0) =~= Seq::<Seq<u8>>::empty());
        assert(tvs_model(r@) =~~= Seq::<(Seq<u8>, u64)>::empty());
    }
    let mut i: usize = 0;
    while i < toks.len()
        invariant
            i <= dv.len(),
            toks.deep_view() == dv,
            toks@.len() == dv.len(),
            tvs_model(r@) == doc_terms_rec(dv.take(i as int)),
        decreases dv.len() - i,
    {
        proof {
            assert(dv.take(i + 1).drop_last() =~= dv.take(i as int));
            assert(dv.take(i + 1).last() == dv[i as int]);
            assert(toks@[i as int]@ == dv[i as int]);
        }
        add_val_x(&mut r, &toks[i], TOKEN_WEIGHT_MILLI);
        let st = stem(&toks[i]);
        if !bytes_eq(&st, &toks[i]) {
            add_val_x(&mut r, &st, STEM_WEIGHT_MILLI);
        }
        i += 1;
    }
    proof {
        assert(dv.take(dv.len() as int) =~= dv);
    }
    r
}

/// One document's contribution to the document-frequency table: one
/// count per distinct term of the document.
pub open spec fn df_add_doc(table: Seq<(Seq<u8>, u64)>, dterms: Seq<(Seq<u8>, u64)>) -> Seq<
    (Seq<u8>, u64),
>
    decreases dterms.len(),
{
    if dterms.len() == 0 {
        table
    } else {
        add_val(df_add_doc(table, dterms.drop_last()), dterms.last().0, 1)
    }
}

/// The document-frequency table of a corpus of texts.
pub open spec fn fit_dfs_spec(texts: Seq<Seq<u8>>) -> Seq<(Seq<u8>, u64)>
    decreases texts.len(),
{
    if texts.len() == 0 {
        Seq::empty()
    } else {
        df_add_doc(fit_dfs_spec(texts.drop_last()), doc_terms_rec(tokens_spec(texts.last())))
    }
}

/// The total token count of a corpus, capped at `u64::MAX`.
pub open spec fn total_len_spec(texts: Seq<Seq<u8>>) -> u64
    decreases texts.len(),
{
    if texts.len() == 0 {
        0
    } else {
        sat_add_spec(total_len_spec(texts.drop_last()), cap_u64(tokens_spec(texts.last()).len()))
    }
}

/// The average document length of a corpus, in milli-tokens; zero for
/// an empty corpus.
pub open spec fn avg_len_spec(texts: Seq<Seq<u8>>) -> u64 {
    if texts.len() == 0 {
        0
    } else {
        sat_mul_spec(total_len_spec(texts), SCALE_MILLI) / cap_u64(texts.len())
    }
}

/// The milli-weight of one term of a text.
///
/// `df` is the term's document frequency, `n` the document count,
/// `avg` the average document length in milli-tokens, `dl` the text's
/// token count and `tf` the term's milli-count in the text. The weight
/// multiplies a rational inverse document frequency,
/// `scale * (n + 1) / (df + 1)`, by a saturating term-frequency factor
/// normalized by the text's length relative to the corpus average.
pub open spec fn term_weight_spec(df: u64, n: u64, avg: u64, dl: u64, tf: u64) -> u64 {
    let idf = sat_mul_spec(SCALE_MILLI, sat_add_spec(n, 1)) / sat_add_spec(df, 1);
    let ratio = if avg == 0 {
        SCALE_MILLI
    } else {
        sat_mul_spec(dl, 1000000) / avg
    };
    let norm = sat_add_spec(
        (SCALE_MILLI - LENGTH_NORM_MILLI) as u64,
        sat_mul_spec(LENGTH_NORM_MILLI, ratio) / SCALE_MILLI,
    );
    let denom = sat_add_spec(tf, sat_mul_spec(SATURATION_MILLI, norm) / SCALE_MILLI);
    if denom == 0 {
        0
    } else {
        sat_mul_spec(idf, sat_mul_spec(tf, sat_add_spec(SATURATION_MILLI, SCALE_MILLI)) / denom)
            / SCALE_MILLI
    }
}

fn term_weight(df: u64, n: u64, avg: u64, dl: u64, tf: u64) -> (r: u64)
    ensures
        r == term_weight_spec(df, n, avg, dl, tf),
{
    let idf = sat_mul(SCALE_MILLI, sat_add(n, 1)) / sat_add(df, 1);
    let ratio = if avg == 0 {
        SCALE_MILLI
    } else {
        sat_mul(dl, 1000000) / avg
    };
    let norm = sat_add(SCALE_MILLI - LENGTH_NORM_MILLI, sat_mul(LENGTH_NORM_MILLI, ratio) / SCALE_MILLI);
    let denom = sat_add(tf, sat_mul(SATURATION_MILLI, norm) / SCALE_MILLI);
    if denom == 0 {
        0
    } else {
        sat_mul(idf, sat_mul(tf, sat_add(SATURATION_MILLI, SCALE_MILLI)) / denom) / SCALE_MILLI
    }
}

/// The weights of a text's terms under frozen corpus statistics, in
/// term order of first appearance; terms unseen at fit time and terms
/// whose weight rounds to zero are absent.
pub open spec fn weights_rec(
    dfs: Seq<(Seq<u8>, u64)>,
    n: u64,
    avg: u64,
    dl: u64,
    tcs: Seq<(Seq<u8>, u64)>,
) -> Seq<(Seq<u8>, u64)>
    decreases tcs.len(),
{
    if tcs.len() == 0 {
        Seq::empty()
    } else {
        let prev = weights_rec(dfs, n, avg, dl, tcs.drop_last());
        let tc = tcs.last();
        if has_key(dfs, tc.0) {
            let w = term_weight_spec(lookup(dfs, tc.0), n, avg, dl, tc.1);
            if w > 0 {
                prev.push((tc.0, w))
            } else {
                prev
            }
        } else {
            prev
        }
    }
}

/// The sparse term-weight vector of a text under frozen statistics.
pub open spec fn embed_spec(dfs: Seq<(Seq<u8>, u64)>, n: u64, avg: u64, text: Seq<u8>) -> Seq<
    (Seq<u8>, u64),
> {
    let toks = tokens_spec(text);
    weights_rec(dfs, n, avg, cap_u64(toks.len()), doc_terms_rec(toks))
}

/// A sparse term-weight vector produced by one embedder.
pub struct Embedding {
    pub terms: Vec<TermVal>,
}

/// The mathematical value of an embedding.
pub open spec fn emb_model(e: Embedding) -> Seq<(Seq<u8>, u64)> {
    tvs_model(e.terms@)
}

/// A fitted embedder: the corpus statistics, frozen.
pub struct Embedder {
    pub dfs: Vec<TermVal>,
    pub n_docs: u64,
    pub avg_len_milli: u64,
}

/// The mathematical value of an embedder: document-frequency table,
/// document count, average document length in milli-tokens.
pub open spec fn embedder_model(e: Embedder) -> (Seq<(Seq<u8>, u64)>, u64, u64) {
    (tvs_model(e.dfs@), e.n_docs, e.avg_len_milli)
}

impl Embedder {
    /// An embedder fitted to an empty corpus.
    pub fn new() -> (r: Embedder)
        ensures
            embedder_model(r) == (Seq::<(Seq<u8>, u64)>::empty(), 0u64, 0u64),
    {
        let r = Embedder { dfs: Vec::new(), n_docs: 0, avg_len_milli: 0 };
        proof {
            assert(tvs_model(r.dfs@) =~~= Seq::<(Seq<u8>, u64)>::empty());
        }
        r
    }

    /// Fits an embedder to a corpus of texts: computes the
    /// document-frequency table, the document count and the average
    /// document length, and freezes them.
    pub fn fit(texts: &Vec<Vec<u8>>) -> (r: Embedder)
        ensures
            tvs_model(r.dfs@) == fit_dfs_spec(texts.deep_view()),
            r.n_docs == texts@.len(),
            r.avg_len_milli == avg_len_spec(texts.deep_view()),
    {
        let ghost dv = texts.deep_view();
        let mut dfs: Vec<TermVal> = Vec::new();
        let mut total: u64 = 0;
        proof {
            assert(dv.take(0) =~= Seq::<Seq<u8>>::empty());
            assert(tvs_model(dfs@) =~~= Seq::<(Seq<u8>, u64)>::empty());
        }
        let mut i: usize = 0;
        while i < texts.len()
            invariant
                i <= dv.len(),
                texts.deep_view() == dv,
                texts@.len() == dv.len(),
                tvs_model(dfs@) == fit_dfs_spec(dv.take(i as int)),
                total == total_len_spec(dv.take(i as int)),
            decreases dv.len() - i,
        {
            proof {
                assert(dv.take(i + 1).drop_last() =~= dv.take(i as int));
                assert(dv.take(i + 1).last() == dv[i as int]);
                assert(texts@[i as int]@ == dv[i as int]);
            }
            let toks = tokenize(&texts[i]);
            proof {
                assert(toks@.len() == toks.deep_view().len());
                assert(cap_u64(tokens_spec(dv[i as int]).len()) == toks.len() as u64);
            }
            total = sat_add(total, toks.len() as u64);
            let dterms = doc_terms(&toks);
            let ghost base = fit_dfs_spec(dv.take(i as int));
            let ghost dm = tvs_model(dterms@);
            let mut j: usize = 0;
            proof {
                assert(dm.take(0) =~= Seq::<(Seq<u8>, u64)>::empty());
            }
            while j < dterms.len()
                invariant
                    j <= dm.len(),
                    tvs_model(dterms@) == dm,
                    dterms@.len() == dm.len(),
                    tvs_model(dfs@) == df_add_doc(base, dm.take(j as int)),
                decreases dm.len() - j,
            {
                proof {
                    assert(dm.take(j + 1).drop_last() =~= dm.take(j as int));
                    assert(dm.take(j + 1).last() == dm[j as int]);
                    assert(dterms@[j as int].term@ == dm[j as int].0);
                }
                add_val_x(&mut dfs, &dterms[j].term, 1);
                j += 1;
            }
            proof {
                assert(dm.take(dm.len() as int) =~= dm);
            }
            i += 1;
        }
        proof {
            assert(dv.take(dv.len() as int) =~= dv);
        }
        let n_docs = texts.len() as u64;
        let avg_len_milli = if texts.len() == 0 {
            0
        } else {
            proof {
                assert(cap_u64(dv.len()) == texts.len() as u64);
            }
            sat_mul(total, SCALE_MILLI) / (texts.len() as u64)
        };
        Embedder { dfs, n_docs, avg_len_milli }
    }

    /// Embeds a text under this embedder's frozen statistics. Pure:
    /// two calls on one text give one vector, and the embedder is
    /// never changed.
    pub fn embed(&self, text: &Vec<u8>) -> (r: Embedding)
        ensures
            emb_model(r) == embed_spec(
                tvs_model(self.dfs@),
                self.n_docs,
                self.avg_len_milli,
                text@,
            ),
    {
        let ghost dfsm = tvs_model(self.dfs@);
        let toks = tokenize(text);
        let ghost toksv = tokens_spec(text@);
        proof {
            assert(cap_u64(toksv.len()) == toks.len() as u64);
        }
        let dl = toks.len() as u64;
        let tcs = doc_terms(&toks);
        let ghost tm = tvs_model(tcs@);
        let mut out: Vec<TermVal> = Vec::new();
        proof {
            assert(tm.take(0) =~= Seq::<(Seq<u8>, u64)>::empty());
            assert(tvs_model(out@) =~~= Seq::<(Seq<u8>, u64)>::empty());
        }
        let mut i: usize = 0;
        while i < tcs.len()
            invariant
                i <= tm.len(),
                tvs_model(tcs@) == tm,
                tcs@.len() == tm.len(),
                tvs_model(self.dfs@) == dfsm,
                tvs_model(out@) == weights_rec(dfsm, self.n_docs, self.avg_len_milli, dl, tm.take(i as int)),
            decreases tm.len() - i,
        {
            proof {
                assert(tm.take(i + 1).drop_last() =~= tm.take(i as int));
                assert(tm.take(i + 1).last() == tm[i as int]);
                assert(tcs@[i as int].term@ == tm[i as int].0);
                assert(tcs@[i as int].val == tm[i as int].1);
            }
            let ghost pre = tvs_model(out@);
            match find_val(&self.dfs, &tcs[i].term) {
                Some(df) => {
                    let w = term_weight(df, self.n_docs, self.avg_len_milli, dl, tcs[i].val);
                    if w > 0 {
                        let term = dup_bytes(&tcs[i].term);
                        out.push(TermVal { term, val: w });
                        proof {
                            assert(tvs_model(out@) =~~= pre.push((tm[i as int].0, w)));
                        }
                    }
                },
                None => {},
            }
            i += 1;
        }
        proof {
            assert(tm.take(tm.len() as int) =~= tm);
        }
        Embedding { terms: out }
    }
}

} // verus!
