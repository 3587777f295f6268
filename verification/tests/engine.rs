use vector_search_service::engine::{fail_open, Engine};
use vector_search_service::error::SearchError;
use vector_search_service::index::{InMemoryIndex, ScoredVector, VectorEntry};
use vector_search_service::metadata::Metadata;
use vector_search_service::models::{default_k, IngestRequest, QueryRequest};

fn bits(values: &[f32]) -> Vec<u32> {
    values.iter().map(|value| value.to_bits()).collect()
}

fn meta(pairs: &[(&str, &str)]) -> Metadata {
    let mut out = Metadata::new();
    for (key, value) in pairs {
        out.insert(key.to_string(), value.to_string());
    }
    out
}

fn cosine(left: &Vec<u32>, right: &Vec<u32>) -> u32 {
    let mut dot = 0.0f32;
    let mut left_norm = 0.0f32;
    let mut right_norm = 0.0f32;
    for (l, r) in left.iter().zip(right.iter()) {
        let l = f32::from_bits(*l);
        let r = f32::from_bits(*r);
        dot += l * r;
        left_norm += l * l;
        right_norm += r * r;
    }
    let denom = (left_norm.sqrt() * right_norm.sqrt()).max(f32::MIN_POSITIVE);
    (dot / denom).to_bits()
}

/// Takes the first component of the candidate as the similarity, so that a test can dictate it.
fn first_component(_probe: &Vec<u32>, candidate: &Vec<u32>) -> u32 {
    candidate[0]
}

fn score_of(result: &ScoredVector) -> f32 {
    f32::from_bits(result.score)
}

fn entry(id: &str, vector: &[f32], pairs: &[(&str, &str)]) -> VectorEntry {
    VectorEntry { id: id.to_string(), vector: bits(vector), metadata: meta(pairs) }
}

#[test]
fn nearest_of_two_without_filter() {
    let mut engine = Engine::new();
    let first = engine.ingest(bits(&[1.0, 0.0]), meta(&[("c", "x")]));
    let _second = engine.ingest(bits(&[0.0, 1.0]), meta(&[("c", "y")]));
    let found = engine.query(bits(&[1.0, 0.0]), 1, Metadata::new(), cosine);
    assert_eq!(found.len(), 1);
    assert_eq!(found[0].id, first);
    assert!((score_of(&found[0]) - 1.0).abs() < 1e-6);
    assert_eq!(found[0].metadata.get(&"c".to_string()), Some(&"x".to_string()));
}

#[test]
fn nearest_of_two_with_filter() {
    let mut engine = Engine::new();
    let _first = engine.ingest(bits(&[1.0, 0.0]), meta(&[("c", "x")]));
    let second = engine.ingest(bits(&[0.0, 1.0]), meta(&[("c", "y")]));
    let found = engine.query(bits(&[1.0, 0.0]), 1, meta(&[("c", "y")]), cosine);
    assert_eq!(found.len(), 1);
    assert_eq!(found[0].id, second);
    assert!(score_of(&found[0]).abs() < 1e-6);
    assert_eq!(found[0].metadata.get(&"c".to_string()), Some(&"y".to_string()));
}

#[test]
fn identical_vectors_score_one() {
    let mut engine = Engine::new();
    engine.ingest(bits(&[0.3, -1.5, 2.0]), Metadata::new());
    let found = engine.query(bits(&[0.3, -1.5, 2.0]), 5, Metadata::new(), cosine);
    assert_eq!(found.len(), 1);
    assert!((score_of(&found[0]) - 1.0).abs() < 1e-6);
}

#[test]
fn orthogonal_vectors_score_zero() {
    let mut engine = Engine::new();
    engine.ingest(bits(&[0.0, 3.0]), Metadata::new());
    let found = engine.query(bits(&[2.0, 0.0]), 5, Metadata::new(), cosine);
    assert_eq!(found.len(), 1);
    assert_eq!(score_of(&found[0]), 0.0);
}

#[test]
fn opposite_vectors_score_minus_one() {
    let mut engine = Engine::new();
    engine.ingest(bits(&[-2.0, 0.0]), Metadata::new());
    let found = engine.query(bits(&[2.0, 0.0]), 5, Metadata::new(), cosine);
    assert_eq!(found.len(), 1);
    assert!((score_of(&found[0]) + 1.0).abs() < 1e-6);
}

#[test]
fn similarity_stays_within_unit_range() {
    let mut engine = Engine::new();
    let vectors: [[f32; 3]; 5] = [
        [1.0, 2.0, 3.0],
        [-4.0, 0.5, 9.0],
        [0.001, -0.002, 0.003],
        [1000.0, -2000.0, 1.0],
        [-1.0, -1.0, -1.0],
    ];
    for vector in vectors.iter() {
        engine.ingest(bits(vector), Metadata::new());
    }
    for probe in vectors.iter() {
        let found = engine.query(bits(probe), 10, Metadata::new(), cosine);
        assert_eq!(found.len(), 5);
        for result in found.iter() {
            let score = score_of(result);
            assert!(score >= -1.0 - 1e-6 && score <= 1.0 + 1e-6);
        }
    }
}

#[test]
fn zero_vectors_score_zero() {
    let mut engine = Engine::new();
    engine.ingest(bits(&[0.0, 0.0]), Metadata::new());
    let found = engine.query(bits(&[0.0, 0.0]), 5, Metadata::new(), cosine);
    assert_eq!(found.len(), 1);
    assert_eq!(score_of(&found[0]), 0.0);
}

#[test]
fn empty_store_answers_nothing() {
    let engine = Engine::new();
    assert!(engine.is_empty());
    assert!(engine.query(bits(&[1.0, 0.0]), 5, Metadata::new(), cosine).is_empty());
    assert!(engine.query(Vec::new(), 0, meta(&[("a", "b")]), cosine).is_empty());
    let index = InMemoryIndex::new();
    let outcome = index.search(&bits(&[1.0]), 3, meta(&[("a", "b")]), cosine);
    assert!(matches!(outcome, Ok(ref found) if found.is_empty()));
}

#[test]
fn default_engine_is_empty() {
    let engine = Engine::default();
    assert_eq!(engine.len(), 0);
    assert!(engine.index().is_empty());
}

#[test]
fn ingest_returns_distinct_ids_for_identical_payloads() {
    let mut engine = Engine::new();
    let first = engine.ingest(bits(&[1.0, 2.0]), meta(&[("k", "v")]));
    let second = engine.ingest(bits(&[1.0, 2.0]), meta(&[("k", "v")]));
    assert_ne!(first, second);
    assert_eq!(engine.len(), 2);
    assert_eq!(engine.index().get(0).map(|entry| entry.id.clone()), Some(first));
    assert_eq!(engine.index().get(1).map(|entry| entry.id.clone()), Some(second));
}

#[test]
fn ingested_id_is_a_random_uuid() {
    let mut engine = Engine::new();
    let id = engine.ingest(bits(&[1.0]), Metadata::new());
    let chars: Vec<char> = id.chars().collect();
    assert_eq!(chars.len(), 36);
    for (at, c) in chars.iter().enumerate() {
        if at == 8 || at == 13 || at == 18 || at == 23 {
            assert_eq!(*c, '-');
        } else {
            assert!(matches!(*c, '0'..='9' | 'a'..='f'));
        }
    }
    assert_eq!(chars[14], '4');
    assert!(matches!(chars[19], '8' | '9' | 'a' | 'b'));
}

#[test]
fn ingest_stores_what_it_was_given() {
    let mut engine = Engine::new();
    let id = engine.ingest(bits(&[1.5, -2.5]), meta(&[("kind", "a"), ("region", "us")]));
    let entry = engine.index().get(0).expect("one entry");
    assert_eq!(entry.id, id);
    assert_eq!(entry.vector, bits(&[1.5, -2.5]));
    assert_eq!(entry.metadata.get(&"kind".to_string()), Some(&"a".to_string()));
    assert_eq!(entry.metadata.get(&"region".to_string()), Some(&"us".to_string()));
    assert!(engine.index().get(1).is_none());
}

#[test]
fn ingest_as_keeps_the_given_id_even_twice() {
    let mut engine = Engine::new();
    engine.ingest_as("same".to_string(), bits(&[1.0]), Metadata::new());
    engine.ingest_as("same".to_string(), bits(&[2.0]), Metadata::new());
    assert_eq!(engine.len(), 2);
    assert_eq!(engine.index().get(0).map(|entry| entry.id.as_str()), Some("same"));
    assert_eq!(engine.index().get(1).map(|entry| entry.id.as_str()), Some("same"));
    assert_eq!(engine.index().get(1).map(|entry| entry.vector.clone()), Some(bits(&[2.0])));
}

#[test]
fn result_count_is_bounded_by_k_and_by_matches() {
    let mut engine = Engine::new();
    for i in 0..6 {
        let kind = if i % 2 == 0 { "even" } else { "odd" };
        engine.ingest(bits(&[1.0, i as f32]), meta(&[("kind", kind)]));
    }
    assert_eq!(engine.query(bits(&[1.0, 0.0]), 2, Metadata::new(), cosine).len(), 2);
    assert_eq!(engine.query(bits(&[1.0, 0.0]), 6, Metadata::new(), cosine).len(), 6);
    assert_eq!(engine.query(bits(&[1.0, 0.0]), 100, Metadata::new(), cosine).len(), 6);
    assert_eq!(engine.query(bits(&[1.0, 0.0]), 2, meta(&[("kind", "odd")]), cosine).len(), 2);
    assert_eq!(engine.query(bits(&[1.0, 0.0]), 5, meta(&[("kind", "odd")]), cosine).len(), 3);
    assert_eq!(engine.query(bits(&[1.0, 0.0]), 5, meta(&[("kind", "none")]), cosine).len(), 0);
    assert_eq!(engine.query(bits(&[1.0, 0.0]), usize::MAX, Metadata::new(), cosine).len(), 6);
}

#[test]
fn results_come_best_first() {
    let mut engine = Engine::new();
    let mut ids = Vec::new();
    for angle in [2.0f32, 0.5, 3.0, 0.0, 1.0] {
        ids.push(engine.ingest(bits(&[angle.cos(), angle.sin()]), Metadata::new()));
    }
    let found = engine.query(bits(&[1.0, 0.0]), 5, Metadata::new(), cosine);
    assert_eq!(found.len(), 5);
    for pair in found.windows(2) {
        assert!(score_of(&pair[0]) >= score_of(&pair[1]));
    }
    let order: Vec<&String> = found.iter().map(|result| &result.id).collect();
    assert_eq!(order, vec![&ids[3], &ids[1], &ids[4], &ids[0], &ids[2]]);
}

#[test]
fn zero_k_answers_nothing() {
    let mut engine = Engine::new();
    engine.ingest(bits(&[1.0, 0.0]), Metadata::new());
    engine.ingest(bits(&[0.0, 1.0]), Metadata::new());
    assert!(engine.query(bits(&[1.0, 0.0]), 0, Metadata::new(), cosine).is_empty());
    let outcome = engine.index().search(&bits(&[1.0, 0.0]), 0, Metadata::new(), cosine);
    assert!(matches!(outcome, Ok(ref found) if found.is_empty()));
}

#[test]
fn mismatched_dimensions_answer_nothing() {
    let mut engine = Engine::new();
    engine.ingest(bits(&[1.0, 0.0]), meta(&[("c", "x")]));
    engine.ingest(bits(&[1.0, 0.0, 0.0]), meta(&[("c", "y")]));
    assert!(engine.query(bits(&[1.0, 0.0]), 5, Metadata::new(), cosine).is_empty());
    assert!(engine.query(bits(&[1.0, 0.0]), 5, meta(&[("c", "y")]), cosine).is_empty());
    let outcome = engine.index().search(&bits(&[1.0, 0.0]), 5, Metadata::new(), cosine);
    assert_eq!(outcome.err(), Some(SearchError::DimensionMismatch { expected: 2, got: 3 }));
}

#[test]
fn mismatched_entry_outside_the_filter_is_not_touched() {
    let mut engine = Engine::new();
    let first = engine.ingest(bits(&[1.0, 0.0]), meta(&[("c", "x")]));
    engine.ingest(bits(&[1.0, 0.0, 0.0]), meta(&[("c", "y")]));
    let found = engine.query(bits(&[1.0, 0.0]), 5, meta(&[("c", "x")]), cosine);
    assert_eq!(found.len(), 1);
    assert_eq!(found[0].id, first);
}

#[test]
fn mismatched_probe_reports_both_lengths() {
    let mut index = InMemoryIndex::new();
    index.insert(entry("a", &[1.0, 2.0, 3.0, 4.0], &[]));
    let outcome = index.search(&bits(&[1.0]), 5, Metadata::new(), cosine);
    assert_eq!(outcome.err(), Some(SearchError::DimensionMismatch { expected: 1, got: 4 }));
}

#[test]
fn non_finite_similarity_fails_the_search() {
    let mut index = InMemoryIndex::new();
    index.insert(entry("a", &[0.5], &[]));
    index.insert(entry("b", &[f32::NAN], &[]));
    let outcome = index.search(&bits(&[1.0]), 5, Metadata::new(), first_component);
    assert_eq!(outcome.err(), Some(SearchError::NumericalInstability));

    let mut index = InMemoryIndex::new();
    index.insert(entry("a", &[f32::INFINITY], &[]));
    let outcome = index.search(&bits(&[1.0]), 5, Metadata::new(), first_component);
    assert_eq!(outcome.err(), Some(SearchError::NumericalInstability));

    let mut index = InMemoryIndex::new();
    index.insert(entry("a", &[f32::NEG_INFINITY], &[]));
    let outcome = index.search(&bits(&[1.0]), 5, Metadata::new(), first_component);
    assert_eq!(outcome.err(), Some(SearchError::NumericalInstability));
}

#[test]
fn overflowing_accumulation_fails_the_search() {
    let mut engine = Engine::new();
    engine.ingest(bits(&[f32::MAX, f32::MAX]), Metadata::new());
    let outcome = engine.index().search(&bits(&[f32::MAX, f32::MAX]), 5, Metadata::new(), cosine);
    assert_eq!(outcome.err(), Some(SearchError::NumericalInstability));
    assert!(engine.query(bits(&[f32::MAX, f32::MAX]), 5, Metadata::new(), cosine).is_empty());
}

#[test]
fn first_failure_in_store_order_is_reported() {
    let mut index = InMemoryIndex::new();
    index.insert(entry("a", &[0.5], &[]));
    index.insert(entry("b", &[f32::NAN], &[]));
    index.insert(entry("c", &[0.5, 0.5], &[]));
    let outcome = index.search(&bits(&[1.0]), 5, Metadata::new(), first_component);
    assert_eq!(outcome.err(), Some(SearchError::NumericalInstability));

    let mut index = InMemoryIndex::new();
    index.insert(entry("a", &[0.5], &[]));
    index.insert(entry("c", &[0.5, 0.5], &[]));
    index.insert(entry("b", &[f32::NAN], &[]));
    let outcome = index.search(&bits(&[1.0]), 5, Metadata::new(), first_component);
    assert_eq!(outcome.err(), Some(SearchError::DimensionMismatch { expected: 1, got: 2 }));
}

#[test]
fn equal_scores_keep_store_order() {
    let mut index = InMemoryIndex::new();
    index.insert(entry("a", &[0.25], &[]));
    index.insert(entry("b", &[0.75], &[]));
    index.insert(entry("c", &[0.25], &[]));
    index.insert(entry("d", &[0.75], &[]));
    index.insert(entry("e", &[0.25], &[]));
    let found = index.search(&bits(&[1.0]), 4, Metadata::new(), first_component).expect("scored");
    let order: Vec<&str> = found.iter().map(|result| result.id.as_str()).collect();
    assert_eq!(order, vec!["b", "d", "a", "c"]);
    assert_eq!(score_of(&found[0]), 0.75);
    assert_eq!(score_of(&found[3]), 0.25);
}

#[test]
fn negative_and_positive_zero_tie() {
    let mut index = InMemoryIndex::new();
    index.insert(entry("minus", &[-0.0], &[]));
    index.insert(entry("plus", &[0.0], &[]));
    index.insert(entry("below", &[-1.0e-40], &[]));
    index.insert(entry("above", &[1.0e-40], &[]));
    let found = index.search(&bits(&[1.0]), 10, Metadata::new(), first_component).expect("scored");
    let order: Vec<&str> = found.iter().map(|result| result.id.as_str()).collect();
    assert_eq!(order, vec!["above", "minus", "plus", "below"]);
}

#[test]
fn similarity_is_called_with_probe_first() {
    let mut index = InMemoryIndex::new();
    index.insert(entry("a", &[7.0], &[]));
    let probe = bits(&[3.0]);
    let found = index
        .search(&probe, 1, Metadata::new(), |left: &Vec<u32>, right: &Vec<u32>| {
            (f32::from_bits(left[0]) - f32::from_bits(right[0])).to_bits()
        })
        .expect("scored");
    assert_eq!(score_of(&found[0]), -4.0);
}

#[test]
fn candidates_are_the_matching_positions() {
    let mut index = InMemoryIndex::new();
    index.insert(entry("a", &[1.0], &[("type", "a")]));
    index.insert(entry("b", &[1.0], &[("type", "b")]));
    index.insert(entry("c", &[1.0], &[("type", "a"), ("region", "us")]));
    index.insert(entry("d", &[1.0], &[]));
    assert_eq!(index.candidates(&Metadata::new()), vec![0, 1, 2, 3]);
    assert_eq!(index.candidates(&meta(&[("type", "a")])), vec![0, 2]);
    assert_eq!(index.candidates(&meta(&[("type", "a"), ("region", "us")])), vec![2]);
    assert_eq!(index.candidates(&meta(&[("type", "c")])), Vec::<usize>::new());
    assert_eq!(index.len(), 4);
}

#[test]
fn fail_open_hides_the_error() {
    let found = fail_open(Err(SearchError::NumericalInstability));
    assert!(found.is_empty());
    let found = fail_open(Err(SearchError::DimensionMismatch { expected: 1, got: 2 }));
    assert!(found.is_empty());
    let given = vec![ScoredVector { id: "a".to_string(), score: 7, metadata: Metadata::new() }];
    let found = fail_open(Ok(given));
    assert_eq!(found.len(), 1);
    assert_eq!(found[0].id, "a");
    assert_eq!(found[0].score, 7);
}

#[test]
fn default_k_is_five() {
    assert_eq!(default_k(), 5);
}

#[test]
fn requests_fill_in_what_was_left_out() {
    let request = QueryRequest::new(bits(&[1.0]), None, None);
    assert_eq!(request.k, 5);
    assert_eq!(request.vector, bits(&[1.0]));
    assert!(request.filter.to_pairs().is_empty());
    let request = QueryRequest::new(bits(&[1.0]), Some(0), Some(meta(&[("a", "b")])));
    assert_eq!(request.k, 0);
    assert_eq!(request.filter.get(&"a".to_string()), Some(&"b".to_string()));
    let request = IngestRequest::new(bits(&[2.0]), None);
    assert_eq!(request.vector, bits(&[2.0]));
    assert!(request.metadata.to_pairs().is_empty());
    let request = IngestRequest::new(bits(&[2.0]), Some(meta(&[("a", "b")])));
    assert_eq!(request.metadata.get(&"a".to_string()), Some(&"b".to_string()));
}

#[test]
fn entries_and_results_clone_field_by_field() {
    let original = entry("a", &[1.0, 2.0], &[("k", "v")]);
    let copy = original.clone();
    assert_eq!(copy.id, "a");
    assert_eq!(copy.vector, bits(&[1.0, 2.0]));
    assert_eq!(copy.metadata.get(&"k".to_string()), Some(&"v".to_string()));
    let result = ScoredVector { id: "b".to_string(), score: 9, metadata: meta(&[("x", "y")]) };
    let copy = result.clone();
    assert_eq!(copy.id, "b");
    assert_eq!(copy.score, 9);
    assert_eq!(copy.metadata.to_pairs(), vec![("x".to_string(), "y".to_string())]);
}

#[test]
fn query_over_many_entries_matches_a_full_sort() {
    let mut engine = Engine::new();
    let mut expected: Vec<(f32, String)> = Vec::new();
    let probe = [0.6f32, -0.8, 0.1];
    let mut seed: u32 = 7;
    for _ in 0..300 {
        let mut vector = [0.0f32; 3];
        for slot in vector.iter_mut() {
            seed = seed.wrapping_mul(1664525).wrapping_add(1013904223);
            *slot = ((seed >> 16) as f32 - 32768.0) / 1024.0;
        }
        let id = engine.ingest(bits(&vector), Metadata::new());
        expected.push((f32::from_bits(cosine(&bits(&probe), &bits(&vector))), id));
    }
    expected.sort_by(|a, b| b.0.partial_cmp(&a.0).expect("finite"));
    let found = engine.query(bits(&probe), 25, Metadata::new(), cosine);
    assert_eq!(found.len(), 25);
    for (result, (score, id)) in found.iter().zip(expected.iter()) {
        assert_eq!(&result.id, id);
        assert_eq!(score_of(result), *score);
    }
}
