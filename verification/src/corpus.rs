//! Corpus rows and document identifiers.
//!
//! A corpus is an ordered collection of (identifier, text) pairs
//! fetched at rebuild time. Two identifier shapes exist: a scalar
//! integer key for datasets and a composite (raw byte identifier,
//! integer parent identifier) key for papers. Texts are raw bytes.

use vstd::prelude::*;

use crate::index::DocKey;
use crate::text::{bytes_eq, dup_bytes};

verus! {

/// Which corpus kind a fetch is for.
pub enum QueryType {
    DatasetQuery,
    PaperQuery,
}

/// One paper row: identifier bytes, owning dataset, abstract text.
pub struct Paper {
    pub paper_id: Vec<u8>,
    pub dataset_id: i32,
    pub abstract_text: Vec<u8>,
}

/// One dataset row: identifier and description text.
pub struct Dataset {
    pub dataset_id: i32,
    pub source_description: Vec<u8>,
}

/// The composite identifier of a paper within its dataset.
pub struct PaperId {
    pub paper_id: Vec<u8>,
    pub dataset_id: i32,
}

impl View for PaperId {
    type V = (Seq<u8>, i32);

    open spec fn view(&self) -> (Seq<u8>, i32) {
        (self.paper_id@, self.dataset_id)
    }
}

impl DocKey for PaperId {
    fn key_eq(&self, other: &Self) -> (r: bool) {
        bytes_eq(&self.paper_id, &other.paper_id) && self.dataset_id == other.dataset_id
    }

    fn dup(&self) -> (r: Self) {
        PaperId { paper_id: dup_bytes(&self.paper_id), dataset_id: self.dataset_id }
    }
}

/// One document of a corpus: an identifier and its raw text.
pub struct Doc<K: DocKey> {
    pub id: K,
    pub text: Vec<u8>,
}

/// The mathematical value of a corpus: (identifier view, text bytes).
pub open spec fn corpus_models<K: DocKey>(s: Seq<Doc<K>>) -> Seq<(K::V, Seq<u8>)> {
    s.map_values(|d: Doc<K>| (d.id@, d.text@))
}

/// The dataset corpus: each row's identifier with its description.
pub fn dataset_corpus(rows: &Vec<Dataset>) -> (r: Vec<Doc<i32>>)
    ensures
        corpus_models(r@) == rows@.map_values(
            |d: Dataset| (d.dataset_id, d.source_description@),
        ),
{
    let ghost goal = rows@.map_values(|d: Dataset| (d.dataset_id, d.source_description@));
    let mut r: Vec<Doc<i32>> = Vec::new();
    proof {
        assert(corpus_models(r@) =~~= goal.take(0));
    }
    let mut i: usize = 0;
    while i < rows.len()
        invariant
            i <= rows@.len(),
            goal == rows@.map_values(|d: Dataset| (d.dataset_id, d.source_description@)),
            goal.len() == rows@.len(),
            corpus_models(r@) == goal.take(i as int),
        decreases rows@.len() - i,
    {
        proof {
            assert(corpus_models(r@).len() == r@.len());
            assert(goal.take(i as int).len() == i);
        }
        let text = dup_bytes(&rows[i].source_description);
        r.push(Doc { id: rows[i].dataset_id, text });
        proof {
            assert(corpus_models(r@) =~~= goal.take(i + 1));
        }
        i += 1;
    }
    proof {
        assert(goal.take(goal.len() as int) =~= goal);
    }
    r
}

/// The paper corpus: each row's composite identifier with its
/// abstract.
pub fn paper_corpus(rows: &Vec<Paper>) -> (r: Vec<Doc<PaperId>>)
    ensures
        corpus_models(r@) == rows@.map_values(
            |p: Paper| ((p.paper_id@, p.dataset_id), p.abstract_text@),
        ),
{
    let ghost goal = rows@.map_values(|p: Paper| ((p.paper_id@, p.dataset_id), p.abstract_text@));
    let mut r: Vec<Doc<PaperId>> = Vec::new();
    proof {
        assert(corpus_models(r@) =~~= goal.take(0));
    }
    let mut i: usize = 0;
    while i < rows.len()
        invariant
            i <= rows@.len(),
            goal == rows@.map_values(|p: Paper| ((p.paper_id@, p.dataset_id), p.abstract_text@)),
            goal.len() == rows@.len(),
            corpus_models(r@) == goal.take(i as int),
        decreases rows@.len() - i,
    {
        proof {
            assert(corpus_models(r@).len() == r@.len());
            assert(goal.take(i as int).len() == i);
        }
        let id = PaperId {
            paper_id: dup_bytes(&rows[i].paper_id),
            dataset_id: rows[i].dataset_id,
        };
        let text = dup_bytes(&rows[i].abstract_text);
        r.push(Doc { id, text });
        proof {
            assert(corpus_models(r@) =~~= goal.take(i + 1));
        }
        i += 1;
    }
    proof {
        assert(goal.take(goal.len() as int) =~= goal);
    }
    r
}

} // verus!
