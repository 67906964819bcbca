use vaf::filter::apply_filters;
use vaf::indexing::VectorIndex;
use vaf::types::{IndexError, Metric, Record};

/// The bit patterns of a float vector, as the index stores them.
fn bits(v: &[f32]) -> Vec<u32> {
    v.iter().map(|x| x.to_bits()).collect()
}

/// Squared Euclidean distance (no square root).
fn l2(a: &[f32], b: &[f32]) -> f32 {
    a.iter().zip(b).map(|(x, y)| (x - y).powi(2)).sum()
}

/// One minus the cosine similarity; a zero-magnitude vector on either
/// side counts as maximally dissimilar.
fn cosine(a: &[f32], b: &[f32]) -> f32 {
    let mut dot = 0.0f32;
    let mut norm_a = 0.0f32;
    let mut norm_b = 0.0f32;
    for i in 0..a.len() {
        dot += a[i] * b[i];
        norm_a += a[i] * a[i];
        norm_b += b[i] * b[i];
    }
    let denom = norm_a.sqrt() * norm_b.sqrt();
    if denom == 0.0 {
        f32::INFINITY
    } else {
        1.0 - dot / denom
    }
}

/// An order-preserving integer key for a float score.
fn score_key(s: f32) -> u32 {
    let b = s.to_bits();
    if b & 0x8000_0000 != 0 {
        !b
    } else {
        b | 0x8000_0000
    }
}

/// The float score a key stands for (inverse of `score_key`).
fn key_score(k: u32) -> f32 {
    if k & 0x8000_0000 != 0 {
        f32::from_bits(k & 0x7FFF_FFFF)
    } else {
        f32::from_bits(!k)
    }
}

/// Scores every stored record against the query and runs the index's
/// search, returning `(id, score)` pairs with float scores.
fn run_search(
    index: &VectorIndex,
    query: &[f32],
    top_k: usize,
    filters: &Vec<(String, String)>,
) -> Result<Vec<(u64, f32)>, IndexError> {
    let mut scores: Vec<u32> = Vec::new();
    for r in &index.records {
        let v: Vec<f32> = r.vector.iter().map(|b| f32::from_bits(*b)).collect();
        let d = match index.metric {
            Metric::L2 => l2(&v, query),
            Metric::Cosine => cosine(&v, query),
        };
        scores.push(score_key(d));
    }
    let keyed = index.search(&bits(query), top_k, filters, &scores)?;
    Ok(keyed.into_iter().map(|(id, k)| (id, key_score(k))).collect())
}

fn record(id: u64, vector: Vec<f32>) -> Record {
    Record { id, vector: bits(&vector), metadata: Vec::new() }
}

fn tagged(id: u64, vector: Vec<f32>, key: &str, value: &str) -> Record {
    Record {
        id,
        vector: bits(&vector),
        metadata: vec![(key.to_string(), value.to_string())],
    }
}

#[test]
fn test_add() {
    let mut index = VectorIndex::new(2, String::from("l2")).unwrap();
    index.add(record(1, vec![1.0; 2])).unwrap();

    assert_eq!(index.len(), 1);
}

#[test]
fn test_search_l2() {
    let mut index = VectorIndex::new(2, String::from("l2")).unwrap();
    index.add(record(1, vec![0.0, 1.0])).unwrap();
    index.add(record(2, vec![0.0, 2.0])).unwrap();
    index.add(record(3, vec![12.0, 5.0])).unwrap();

    let query = vec![0.0, 0.0];

    let results = run_search(&index, &query, 2, &Vec::new()).unwrap();
    assert_eq!(results.len(), 2);
    assert_eq!(results[0].0, 1); // closest result
    assert_eq!(results[1].0, 2); // Second closest
}

#[test]
fn test_search_cosine() {
    let mut index = VectorIndex::new(2, String::from("cosine")).unwrap();

    index.add(record(1, vec![1.0, 0.0])).unwrap(); // same direction
    index.add(record(2, vec![0.0, 1.0])).unwrap(); // orthogonal
    index.add(record(3, vec![-1.0, 0.0])).unwrap(); // opposite

    let query = vec![1.0, 0.0];
    let results = run_search(&index, &query, 3, &Vec::new()).unwrap();

    assert_eq!(results[0].0, 1);
    assert_eq!(results[2].0, 3);
}

#[test]
fn test_top_k_overflow() {
    let mut index = VectorIndex::new(2, String::from("l2")).unwrap();

    index.add(record(1, vec![0.0, 1.0])).unwrap();
    index.add(record(2, vec![0.0, 2.0])).unwrap();

    let query = vec![0.0, 0.0];

    let results = run_search(&index, &query, 10, &Vec::new()).unwrap();

    assert_eq!(results.len(), 2);
}

#[test]
fn l2_exact_scores() {
    let mut index = VectorIndex::new(2, String::from("l2")).unwrap();
    index.add(record(1, vec![0.0, 1.0])).unwrap();
    index.add(record(2, vec![0.0, 2.0])).unwrap();
    index.add(record(3, vec![12.0, 5.0])).unwrap();

    let results = run_search(&index, &[0.0, 0.0], 2, &Vec::new()).unwrap();
    assert_eq!(results, vec![(1, 1.0), (2, 4.0)]);

    let all = run_search(&index, &[0.0, 0.0], 3, &Vec::new()).unwrap();
    assert_eq!(all[2], (3, 169.0));
}

#[test]
fn cosine_exact_scores() {
    let mut index = VectorIndex::new(2, String::from("cosine")).unwrap();
    index.add(record(1, vec![1.0, 0.0])).unwrap();
    index.add(record(2, vec![0.0, 1.0])).unwrap();
    index.add(record(3, vec![-1.0, 0.0])).unwrap();

    let results = run_search(&index, &[1.0, 0.0], 3, &Vec::new()).unwrap();
    assert_eq!(results, vec![(1, 0.0), (2, 1.0), (3, 2.0)]);
}

#[test]
fn cosine_zero_vector_sorts_last() {
    let mut index = VectorIndex::new(2, String::from("cosine")).unwrap();
    index.add(record(1, vec![0.0, 0.0])).unwrap();
    index.add(record(2, vec![1.0, 0.0])).unwrap();

    let results = run_search(&index, &[1.0, 0.0], 2, &Vec::new()).unwrap();
    assert_eq!(results[0].0, 2);
    assert_eq!(results[1].0, 1);
    assert!(results[1].1.is_infinite());
}

#[test]
fn self_match_comes_first_with_zero_score() {
    let mut index = VectorIndex::new(2, String::from("l2")).unwrap();
    index.add(record(10, vec![5.0, 5.0])).unwrap();
    index.add(record(11, vec![3.0, 4.0])).unwrap();
    index.add(record(12, vec![-2.0, 9.0])).unwrap();

    let results = run_search(&index, &[3.0, 4.0], 3, &Vec::new()).unwrap();
    assert_eq!(results[0], (11, 0.0));
}

#[test]
fn equal_scores_keep_insertion_order() {
    let mut index = VectorIndex::new(2, String::from("l2")).unwrap();
    index.add(record(7, vec![0.0, 1.0])).unwrap();
    index.add(record(8, vec![0.0, 1.0])).unwrap();
    index.add(record(9, vec![0.0, -1.0])).unwrap();

    // All three are at squared distance 1 from the origin.
    let results = run_search(&index, &[0.0, 0.0], 3, &Vec::new()).unwrap();
    assert_eq!(results[0].0, 7);
    assert_eq!(results[1].0, 8);
    assert_eq!(results[2].0, 9);
}

#[test]
fn search_is_idempotent() {
    let mut index = VectorIndex::new(2, String::from("l2")).unwrap();
    index.add(tagged(1, vec![0.0, 1.0], "lang", "en")).unwrap();
    index.add(tagged(2, vec![0.0, 2.0], "lang", "fr")).unwrap();
    index.add(record(3, vec![1.0, 1.0])).unwrap();

    let filters = vec![("lang".to_string(), "en".to_string())];
    let first = run_search(&index, &[0.5, 0.5], 2, &filters).unwrap();
    let second = run_search(&index, &[0.5, 0.5], 2, &filters).unwrap();
    assert_eq!(first, second);
}

#[test]
fn top_k_zero_returns_nothing() {
    let mut index = VectorIndex::new(2, String::from("l2")).unwrap();
    index.add(record(1, vec![0.0, 1.0])).unwrap();

    let results = run_search(&index, &[0.0, 0.0], 0, &Vec::new()).unwrap();
    assert!(results.is_empty());
}

#[test]
fn empty_index_returns_nothing() {
    let index = VectorIndex::new(2, String::from("l2")).unwrap();

    let results = run_search(&index, &[0.0, 0.0], 5, &Vec::new()).unwrap();
    assert!(results.is_empty());
}

#[test]
fn filters_narrow_candidates() {
    let v = vec![0.0, 1.0];
    let mut index = VectorIndex::new(2, String::from("l2")).unwrap();
    index.add(tagged(1, v.clone(), "lang", "en")).unwrap();
    index.add(tagged(2, v.clone(), "lang", "fr")).unwrap();

    let filters = vec![("lang".to_string(), "en".to_string())];
    let results = run_search(&index, &[0.0, 0.0], 10, &filters).unwrap();
    assert_eq!(results.len(), 1);
    assert_eq!(results[0].0, 1);
}

#[test]
fn missing_key_excludes_record() {
    let mut index = VectorIndex::new(2, String::from("l2")).unwrap();
    index.add(record(1, vec![0.0, 1.0])).unwrap();
    index.add(tagged(2, vec![0.0, 2.0], "lang", "en")).unwrap();

    let filters = vec![("lang".to_string(), "en".to_string())];
    let results = run_search(&index, &[0.0, 0.0], 10, &filters).unwrap();
    assert_eq!(results.len(), 1);
    assert_eq!(results[0].0, 2);
}

#[test]
fn apply_filters_keeps_order_and_positions() {
    let records = vec![
        tagged(5, vec![0.0, 0.0], "lang", "en"),
        tagged(6, vec![0.0, 0.0], "lang", "fr"),
        tagged(7, vec![0.0, 0.0], "lang", "en"),
    ];
    let filters = vec![("lang".to_string(), "en".to_string())];
    assert_eq!(apply_filters(&records, &filters), vec![0, 2]);
    assert_eq!(apply_filters(&records, &Vec::new()), vec![0, 1, 2]);
}

#[test]
fn add_rejects_wrong_dimension() {
    let mut index = VectorIndex::new(2, String::from("l2")).unwrap();
    let result = index.add(record(1, vec![1.0, 2.0, 3.0]));
    assert_eq!(result, Err(IndexError::DimensionMismatch));
    assert_eq!(index.len(), 0);
}

#[test]
fn search_rejects_wrong_dimension() {
    let mut index = VectorIndex::new(2, String::from("l2")).unwrap();
    index.add(record(1, vec![0.0, 1.0])).unwrap();

    let result = run_search(&index, &[0.0, 0.0, 0.0], 1, &Vec::new());
    assert_eq!(result, Err(IndexError::DimensionMismatch));
}

#[test]
fn unknown_metric_tag_is_rejected() {
    let result = VectorIndex::new(2, String::from("manhattan"));
    assert!(matches!(result, Err(IndexError::ConfigurationError)));
}

#[test]
fn zero_dimension_is_rejected() {
    let result = VectorIndex::new(0, String::from("l2"));
    assert!(matches!(result, Err(IndexError::ConfigurationError)));
}

#[test]
fn metric_tags_select_their_metric() {
    let l2_index = VectorIndex::new(3, String::from("l2")).unwrap();
    assert_eq!(l2_index.metric, Metric::L2);
    assert_eq!(l2_index.dim, 3);

    let cos_index = VectorIndex::new(3, String::from("cosine")).unwrap();
    assert_eq!(cos_index.metric, Metric::Cosine);
}

#[test]
fn duplicate_ids_both_appear() {
    let mut index = VectorIndex::new(2, String::from("l2")).unwrap();
    index.add(record(1, vec![0.0, 1.0])).unwrap();
    index.add(record(1, vec![0.0, 2.0])).unwrap();

    let results = run_search(&index, &[0.0, 0.0], 10, &Vec::new()).unwrap();
    assert_eq!(results.len(), 2);
    assert_eq!(results[0], (1, 1.0));
    assert_eq!(results[1], (1, 4.0));
}
