//! The scoring service's request handling: validation of the
//! requested result count, top-k truncation, and the rebuild
//! operations for the two corpus kinds.
//!
//! Validation fails fast: an oversized request is rejected before any
//! scoring work, and produces no partial output.

use vstd::prelude::*;

use crate::corpus::{corpus_models, dataset_corpus, paper_corpus, Dataset, Doc, Paper, PaperId};
use crate::error_handling::ValidationError;
use crate::index::{res_models, sorted_desc, DocKey, ScoreResult};
use crate::model::{populated_from, query_spec, Model};

verus! {

/// The hard ceiling on the number of results one request may ask for.
pub const MAX_RESULTS: usize = 100000;

/// How many results to hand back: the requested count, clipped to
/// what is available. Rejects counts over the ceiling.
pub fn check_len<K: DocKey>(scores: &Vec<ScoreResult<K>>, num_results: usize) -> (r: Result<
    usize,
    ValidationError,
>)
    ensures
        r is Err <==> num_results > MAX_RESULTS,
        r is Ok ==> r->Ok_0 == if num_results <= scores@.len() {
            num_results as int
        } else {
            scores@.len() as int
        },
{
    if num_results > MAX_RESULTS {
        Err(ValidationError::new("num_results exceeds the result-count ceiling".to_owned()))
    } else if num_results > scores.len() {
        Ok(scores.len())
    } else {
        Ok(num_results)
    }
}

/// Scores a query against a model and truncates to the requested
/// count.
///
/// Rejects `num_results` over the ceiling before doing any work, with
/// a validation error and no partial output; otherwise returns
/// exactly the requested number of results, or all nonzero matches
/// when fewer exist, sorted by non-increasing score. An empty result
/// is a valid success, never an error.
pub fn score<K: DocKey>(model: &Model<K>, query: &Vec<u8>, num_results: usize) -> (r: Result<
    Vec<ScoreResult<K>>,
    ValidationError,
>)
    ensures
        r is Err <==> num_results > MAX_RESULTS,
        r is Ok ==> res_models(r->Ok_0@) == query_spec(model.stats(), model.index(), query@).take(
            min_with(num_results as int, query_spec(model.stats(), model.index(), query@).len() as int),
        ),
        r is Ok ==> r->Ok_0@.len() == min_with(
            num_results as int,
            query_spec(model.stats(), model.index(), query@).len() as int,
        ),
        r is Ok ==> sorted_desc(res_models(r->Ok_0@)),
{
    let ghost full = query_spec(model.stats(), model.index(), query@);
    if num_results > MAX_RESULTS {
        return Err(
            ValidationError::new("num_results exceeds the result-count ceiling".to_owned()),
        );
    }
    let mut results = model.query(query);
    let n = match check_len(&results, num_results) {
        Ok(n) => n,
        Err(e) => {
            proof {
                assert(false);
            }
            return Err(e);
        },
    };
    let ghost before = results@;
    results.truncate(n);
    proof {
        assert(res_models(results@) =~~= res_models(before).take(n as int));
        assert(res_models(results@).len() == results@.len());
    }
    Ok(results)
}

/// Rebuilds the dataset model from the fetched dataset rows: the
/// compute half of a dataset populate call.
pub fn populate_datasets(model: &mut Model<i32>, rows: &Vec<Dataset>)
    ensures
        populated_from(
            *final(model),
            rows@.map_values(|d: Dataset| (d.dataset_id, d.source_description@)),
        ),
        final(model).wf(),
{
    let corpus = dataset_corpus(rows);
    model.populate(&corpus);
}

/// Rebuilds the paper model from the fetched paper rows: the compute
/// half of a paper populate call.
pub fn populate_papers(model: &mut Model<PaperId>, rows: &Vec<Paper>)
    ensures
        populated_from(
            *final(model),
            rows@.map_values(|p: Paper| ((p.paper_id@, p.dataset_id), p.abstract_text@)),
        ),
        final(model).wf(),
{
    let corpus = paper_corpus(rows);
    model.populate(&corpus);
}

/// The smaller of two values.
pub open spec fn min_with(a: int, b: int) -> int {
    if a <= b {
        a
    } else {
        b
    }
}

} // verus!
