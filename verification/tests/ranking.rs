use score_rank::corpus::{dataset_corpus, paper_corpus, Dataset, Doc, Paper, PaperId};
use score_rank::embed::Embedder;
use score_rank::index::Scorer;
use score_rank::model::Model;
use score_rank::service::{check_len, populate_datasets, populate_papers, score, MAX_RESULTS};
use score_rank::text::{stem, tokenize};

fn bv(s: &str) -> Vec<u8> {
    s.as_bytes().to_vec()
}

fn dataset_model(rows: Vec<(i32, &str)>) -> Model<i32> {
    let docs: Vec<Doc<i32>> = rows.into_iter().map(|(id, t)| Doc { id, text: bv(t) }).collect();
    Model::build(&docs)
}

#[test]
fn tokenize_lowercases_splits_and_drops_stopwords() {
    let toks = tokenize(&bv("The cat, SAT on the mat!"));
    let words: Vec<Vec<u8>> = vec![bv("cat"), bv("sat"), bv("mat")];
    assert_eq!(toks, words);
}

#[test]
fn tokenize_empty_text_gives_no_tokens() {
    assert!(tokenize(&bv("")).is_empty());
    assert!(tokenize(&bv("  ... !!")).is_empty());
}

#[test]
fn stem_drops_single_trailing_s() {
    assert_eq!(stem(&bv("dogs")), bv("dog"));
    assert_eq!(stem(&bv("cats")), bv("cat"));
    assert_eq!(stem(&bv("miss")), bv("miss"));
    assert_eq!(stem(&bv("as")), bv("as"));
    assert_eq!(stem(&bv("fast")), bv("fast"));
}

#[test]
fn single_doc_exact_match_scores_one_thousand_milli() {
    let model = dataset_model(vec![(7, "cat")]);
    let results = model.query(&bv("cat"));
    assert_eq!(results.len(), 1);
    assert_eq!(results[0].id, 7);
    assert_eq!(results[0].score_milli, 1000);
}

#[test]
fn exact_match_outranks_stemmed_match_and_zero_scores_are_absent() {
    let model = dataset_model(vec![
        (1, "the cat sat"),
        (2, "the dog ran fast"),
        (3, "cats and dogs"),
    ]);
    let results = score(&model, &bv("dog"), 10).unwrap();
    let ids: Vec<i32> = results.iter().map(|r| r.id).collect();
    assert_eq!(ids, vec![2, 3]);
    assert!(results[0].score_milli > results[1].score_milli);
}

#[test]
fn match_output_is_sorted_non_increasing() {
    let model = dataset_model(vec![
        (1, "apple banana apple"),
        (2, "apple"),
        (3, "banana apple apple apple"),
        (4, "cherry"),
        (5, "apple apple"),
    ]);
    let results = model.query(&bv("apple banana"));
    assert!(!results.is_empty());
    for w in results.windows(2) {
        assert!(w[0].score_milli >= w[1].score_milli);
    }
}

#[test]
fn equal_scores_keep_insertion_order() {
    let model = dataset_model(vec![(9, "cat"), (4, "cat"), (6, "cat")]);
    let results = model.query(&bv("cat"));
    assert_eq!(results.len(), 3);
    assert_eq!(results[0].score_milli, results[1].score_milli);
    assert_eq!(results[1].score_milli, results[2].score_milli);
    let ids: Vec<i32> = results.iter().map(|r| r.id).collect();
    assert_eq!(ids, vec![9, 4, 6]);
}

#[test]
fn score_returns_min_of_requested_and_available() {
    let model = dataset_model(vec![(1, "cat"), (2, "cat dog"), (3, "cat mat")]);
    assert_eq!(score(&model, &bv("cat"), 0).unwrap().len(), 0);
    assert_eq!(score(&model, &bv("cat"), 2).unwrap().len(), 2);
    assert_eq!(score(&model, &bv("cat"), 3).unwrap().len(), 3);
    assert_eq!(score(&model, &bv("cat"), 50).unwrap().len(), 3);
    assert_eq!(score(&model, &bv("cat"), MAX_RESULTS).unwrap().len(), 3);
}

#[test]
fn score_rejects_count_over_ceiling_with_no_output() {
    let model = dataset_model(vec![(1, "cat")]);
    let err = score(&model, &bv("cat"), MAX_RESULTS + 1);
    assert!(err.is_err());
    assert!(!err.err().unwrap().message.is_empty());
}

#[test]
fn check_len_clips_and_validates() {
    let model = dataset_model(vec![(1, "cat"), (2, "cat")]);
    let results = model.query(&bv("cat"));
    assert_eq!(check_len(&results, 1).unwrap(), 1);
    assert_eq!(check_len(&results, 2).unwrap(), 2);
    assert_eq!(check_len(&results, 9).unwrap(), 2);
    assert_eq!(check_len(&results, MAX_RESULTS).unwrap(), 2);
    assert!(check_len(&results, MAX_RESULTS + 1).is_err());
}

#[test]
fn upsert_same_id_twice_keeps_one_entry_with_latest_embedding() {
    let texts = vec![bv("cat"), bv("dog")];
    let embedder = Embedder::fit(&texts);
    let mut scorer: Scorer<i32> = Scorer::new();
    scorer.upsert(5, embedder.embed(&bv("cat")));
    scorer.upsert(5, embedder.embed(&bv("dog")));
    let hits_dog = scorer.matches(&embedder.embed(&bv("dog")));
    assert_eq!(hits_dog.len(), 1);
    assert_eq!(hits_dog[0].id, 5);
    let hits_cat = scorer.matches(&embedder.embed(&bv("cat")));
    assert!(hits_cat.is_empty());
}

#[test]
fn populate_twice_with_unchanged_corpus_is_idempotent() {
    let rows = vec![
        Dataset { dataset_id: 1, source_description: bv("solar wind data") },
        Dataset { dataset_id: 2, source_description: bv("wind turbine output") },
    ];
    let mut model = Model::new();
    populate_datasets(&mut model, &rows);
    let once: Vec<(i32, u64)> =
        model.query(&bv("wind")).iter().map(|r| (r.id, r.score_milli)).collect();
    populate_datasets(&mut model, &rows);
    let twice: Vec<(i32, u64)> =
        model.query(&bv("wind")).iter().map(|r| (r.id, r.score_milli)).collect();
    assert_eq!(once, twice);
    assert!(!once.is_empty());
}

#[test]
fn populate_evicts_identifiers_absent_from_new_corpus() {
    let mut model = Model::new();
    populate_datasets(
        &mut model,
        &vec![Dataset { dataset_id: 1, source_description: bv("cat") }],
    );
    assert_eq!(model.query(&bv("cat")).len(), 1);
    populate_datasets(
        &mut model,
        &vec![Dataset { dataset_id: 2, source_description: bv("dog") }],
    );
    assert!(model.query(&bv("cat")).is_empty());
    assert_eq!(model.query(&bv("dog")).len(), 1);
}

#[test]
fn empty_corpus_populate_then_any_query_is_empty_success() {
    let mut model: Model<i32> = Model::new();
    populate_datasets(&mut model, &Vec::new());
    let results = score(&model, &bv("anything"), 10).unwrap();
    assert!(results.is_empty());
    let again = score(&model, &bv(""), 10).unwrap();
    assert!(again.is_empty());
}

#[test]
fn fresh_model_answers_queries_with_empty_results() {
    let model: Model<i32> = Model::new();
    assert!(model.query(&bv("cat")).is_empty());
}

#[test]
fn paper_model_ranks_by_composite_identifier() {
    let rows = vec![
        Paper { paper_id: bv("p-aa"), dataset_id: 1, abstract_text: bv("neural ranking") },
        Paper { paper_id: bv("p-bb"), dataset_id: 2, abstract_text: bv("neural networks and ranking models") },
        Paper { paper_id: bv("p-cc"), dataset_id: 2, abstract_text: bv("field surveys") },
    ];
    let mut model: Model<PaperId> = Model::new();
    populate_papers(&mut model, &rows);
    let results = score(&model, &bv("ranking"), 10).unwrap();
    assert_eq!(results.len(), 2);
    for r in &results {
        assert!(r.id.paper_id == bv("p-aa") || r.id.paper_id == bv("p-bb"));
    }
    let none = score(&model, &bv("oceanography"), 10).unwrap();
    assert!(none.is_empty());
}

#[test]
fn corpus_extraction_keeps_rows_in_order() {
    let drows = vec![
        Dataset { dataset_id: 3, source_description: bv("alpha") },
        Dataset { dataset_id: 1, source_description: bv("beta") },
    ];
    let dcorpus = dataset_corpus(&drows);
    assert_eq!(dcorpus.len(), 2);
    assert_eq!(dcorpus[0].id, 3);
    assert_eq!(dcorpus[0].text, bv("alpha"));
    assert_eq!(dcorpus[1].id, 1);
    let prows = vec![Paper { paper_id: bv("x"), dataset_id: 9, abstract_text: bv("gamma") }];
    let pcorpus = paper_corpus(&prows);
    assert_eq!(pcorpus[0].id.paper_id, bv("x"));
    assert_eq!(pcorpus[0].id.dataset_id, 9);
    assert_eq!(pcorpus[0].text, bv("gamma"));
}

#[test]
fn unseen_query_terms_contribute_nothing() {
    let model = dataset_model(vec![(1, "cat"), (2, "dog")]);
    assert!(model.query(&bv("zebra")).is_empty());
    let with_noise = model.query(&bv("cat zebra quux"));
    assert_eq!(with_noise.len(), 1);
    assert_eq!(with_noise[0].id, 1);
}

#[test]
fn rarer_terms_weigh_more_than_common_ones() {
    let model = dataset_model(vec![(1, "ore coal"), (2, "ore clay")]);
    let common = model.query(&bv("ore"));
    let rare = model.query(&bv("coal"));
    assert_eq!(common.len(), 2);
    assert_eq!(rare.len(), 1);
    assert_eq!(rare[0].id, 1);
    assert!(rare[0].score_milli > common[0].score_milli);
}
