//! The model: one embedder paired with one index, the unit of atomic
//! replacement.
//!
//! A rebuild constructs the whole replacement model from the corpus
//! alone — embedder fitted first, every document embedded with that
//! new embedder — so a caller can install it with a single swap and
//! concurrent readers see either the fully-old or the fully-new pair,
//! never a mixture. The replacement never depends on the previous
//! model, so a stale entry for an identifier absent from the latest
//! corpus never survives a rebuild.

use vstd::prelude::*;

use crate::arith::cap_u64;
use crate::corpus::{corpus_models, Doc};
use crate::embed::{avg_len_spec, embed_spec, embedder_model, fit_dfs_spec, Embedder};
use crate::text::dup_bytes;
use crate::index::{
    rank_spec, res_models, sorted_desc, upsert_spec, DocKey, ScoreResult, Scorer,
};

verus! {

/// The texts of a corpus, in corpus order.
pub open spec fn corpus_texts<I>(c: Seq<(I, Seq<u8>)>) -> Seq<Seq<u8>> {
    c.map_values(|p: (I, Seq<u8>)| p.1)
}

/// The frozen statistics an embedder fitted to these texts holds.
pub open spec fn fit_stats_spec(texts: Seq<Seq<u8>>) -> (Seq<(Seq<u8>, u64)>, u64, u64) {
    (fit_dfs_spec(texts), cap_u64(texts.len()), avg_len_spec(texts))
}

/// The index a rebuild produces: every corpus document upserted in
/// order, embedded under statistics `st`.
pub open spec fn build_index_spec<I>(
    c: Seq<(I, Seq<u8>)>,
    st: (Seq<(Seq<u8>, u64)>, u64, u64),
) -> Seq<(I, Seq<(Seq<u8>, u64)>)>
    decreases c.len(),
{
    if c.len() == 0 {
        Seq::empty()
    } else {
        upsert_spec(
            build_index_spec(c.drop_last(), st),
            c.last().0,
            embed_spec(st.0, st.1, st.2, c.last().1),
        )
    }
}

/// Whether a model is exactly the one a rebuild from corpus `c`
/// produces.
pub open spec fn populated_from<K: DocKey>(m: Model<K>, c: Seq<(K::V, Seq<u8>)>) -> bool {
    &&& embedder_model(m.embedder) == fit_stats_spec(corpus_texts(c))
    &&& m.index() == build_index_spec(c, fit_stats_spec(corpus_texts(c)))
}

/// The ranked results of one query against a model's statistics and
/// index.
pub open spec fn query_spec<I>(
    st: (Seq<(Seq<u8>, u64)>, u64, u64),
    idx: Seq<(I, Seq<(Seq<u8>, u64)>)>,
    text: Seq<u8>,
) -> Seq<(I, u64)> {
    rank_spec(idx, embed_spec(st.0, st.1, st.2, text))
}

/// An embedder and its index for one corpus kind.
pub struct Model<K: DocKey> {
    pub embedder: Embedder,
    pub scorer: Scorer<K>,
}

impl<K: DocKey> Model<K> {
    /// The stored index, abstractly.
    pub open spec fn index(self) -> Seq<(K::V, Seq<(Seq<u8>, u64)>)> {
        self.scorer.model()
    }

    /// The frozen statistics, abstractly.
    pub open spec fn stats(self) -> (Seq<(Seq<u8>, u64)>, u64, u64) {
        embedder_model(self.embedder)
    }

    /// Well-formedness: the index holds each identifier at most once.
    pub open spec fn wf(self) -> bool {
        self.scorer.wf()
    }

    /// An empty model: no embedder fitted, empty index.
    pub fn new() -> (r: Model<K>)
        ensures
            populated_from(r, Seq::<(K::V, Seq<u8>)>::empty()),
            r.wf(),
    {
        let r = Model { embedder: Embedder::new(), scorer: Scorer::new() };
        proof {
            assert(corpus_texts(Seq::<(K::V, Seq<u8>)>::empty()) =~= Seq::<Seq<u8>>::empty());
        }
        r
    }

    /// Builds the whole replacement model for a corpus: fits a fresh
    /// embedder, embeds every document with it and upserts each into
    /// a fresh index. The result depends on the corpus alone.
    pub fn build(corpus: &Vec<Doc<K>>) -> (m: Model<K>)
        ensures
            populated_from(m, corpus_models(corpus@)),
            m.wf(),
    {
        let ghost cm = corpus_models(corpus@);
        let mut texts: Vec<Vec<u8>> = Vec::new();
        proof {
            assert(texts.deep_view() =~~= corpus_texts(cm.take(0)));
        }
        let mut i: usize = 0;
        while i < corpus.len()
            invariant
                i <= cm.len(),
                corpus_models(corpus@) == cm,
                corpus@.len() == cm.len(),
                texts.deep_view() == corpus_texts(cm.take(i as int)),
            decreases cm.len() - i,
        {
            proof {
                assert(texts.deep_view().len() == texts@.len());
                assert(corpus_texts(cm.take(i as int)).len() == i);
            }
            let ghost pre_dv = texts.deep_view();
            let t = dup_bytes(&corpus[i].text);
            let ghost tv = t@;
            texts.push(t);
            proof {
                assert(corpus@[i as int].text@ == cm[i as int].1);
                assert(texts.deep_view() =~~= pre_dv.push(tv));
                assert(corpus_texts(cm.take(i + 1)) =~= corpus_texts(cm.take(i as int)).push(
                    cm[i as int].1,
                ));
            }
            i += 1;
        }
        proof {
            assert(cm.take(cm.len() as int) =~= cm);
            assert(texts.deep_view() =~~= corpus_texts(cm));
        }
        let embedder = Embedder::fit(&texts);
        let ghost st = fit_stats_spec(corpus_texts(cm));
        proof {
            assert(texts@.len() == texts.deep_view().len());
            assert(cap_u64(corpus_texts(cm).len()) == embedder.n_docs);
            assert(embedder_model(embedder) == st);
        }
        let mut scorer = Scorer::new();
        proof {
            assert(scorer.model() =~= build_index_spec(cm.take(0), st));
        }
        let mut j: usize = 0;
        while j < corpus.len()
            invariant
                j <= cm.len(),
                corpus_models(corpus@) == cm,
                corpus@.len() == cm.len(),
                embedder_model(embedder) == st,
                scorer.model() == build_index_spec(cm.take(j as int), st),
                scorer.wf(),
            decreases cm.len() - j,
        {
            proof {
                assert(cm.take(j + 1).drop_last() =~= cm.take(j as int));
                assert(cm.take(j + 1).last() == cm[j as int]);
                assert(corpus@[j as int].text@ == cm[j as int].1);
                assert(corpus@[j as int].id@ == cm[j as int].0);
            }
            let e = embedder.embed(&corpus[j].text);
            let id = corpus[j].id.dup();
            scorer.upsert(id, e);
            j += 1;
        }
        proof {
            assert(cm.take(cm.len() as int) =~= cm);
        }
        Model { embedder, scorer }
    }

    /// Replaces this model wholesale with the rebuild for `corpus`.
    /// The new state never depends on the old one: rebuilding twice
    /// from one corpus leaves the same model as rebuilding once.
    pub fn populate(&mut self, corpus: &Vec<Doc<K>>)
        ensures
            populated_from(*final(self), corpus_models(corpus@)),
            final(self).wf(),
    {
        *self = Self::build(corpus);
    }

    /// Ranks the stored documents against a query text, using this
    /// model's frozen statistics for the query embedding: every
    /// document with a nonzero score, sorted by non-increasing score,
    /// ties in first-upsert order.
    pub fn query(&self, text: &Vec<u8>) -> (r: Vec<ScoreResult<K>>)
        ensures
            res_models(r@) == query_spec(self.stats(), self.index(), text@),
            sorted_desc(res_models(r@)),
    {
        let e = self.embedder.embed(text);
        self.scorer.matches(&e)
    }
}

} // verus!
