use kronroe::codec::{check_embedding_dim, decode_embedding, encode_embedding, rebuild_vector_index, EmbeddingRow};
use kronroe::error::KronroeError;
use kronroe::fact::FactId;
use kronroe::retrieval::ScoreMath;
use kronroe::vector::VectorIndex;

fn bits(v: &[f32]) -> Vec<u32> {
    v.iter().map(|x| x.to_bits()).collect()
}

fn floats(v: &[u32]) -> Vec<f32> {
    v.iter().map(|x| f32::from_bits(*x)).collect()
}

fn l2_norm(v: &[f32]) -> f32 {
    v.iter().map(|x| x * x).sum::<f32>().sqrt()
}

fn cosine_similarity(a: &[f32], b: &[f32], a_norm: f32) -> f32 {
    if a.len() != b.len() {
        return 0.0;
    }
    let b_norm = l2_norm(b);
    if b_norm == 0.0 {
        return 0.0;
    }
    let dot: f32 = a.iter().zip(b.iter()).map(|(x, y)| x * y).sum();
    dot / (a_norm * b_norm)
}

struct FloatMath;

impl ScoreMath for FloatMath {
    fn is_null(&self, v: &Vec<u32>) -> bool {
        l2_norm(&floats(v)) == 0.0
    }

    fn cosine(&self, query: &Vec<u32>, embedding: &Vec<u32>) -> u32 {
        let q = floats(query);
        cosine_similarity(&q, &floats(embedding), l2_norm(&q)).to_bits()
    }

    fn rrf_term(&self, weight: u32, rank_constant: usize, rank: usize) -> u64 {
        (f32::from_bits(weight) as f64 / (rank_constant as f64 + (rank + 1) as f64)).to_bits()
    }

    fn sum(&self, a: u64, b: u64) -> u64 {
        (f64::from_bits(a) + f64::from_bits(b)).to_bits()
    }

    fn half_life_adjustment(&self, _age_secs: u64, _half_life_days: u32, _temporal_weight: u32) -> u64 {
        0.0_f64.to_bits()
    }
}

fn new_id() -> FactId {
    FactId::new()
}

fn make_ids(n: usize) -> Vec<FactId> {
    (0..n).map(|_| new_id()).collect()
}

#[test]
fn test_insert_single() {
    let mut idx = VectorIndex::new();
    let id = new_id();
    idx.insert(id.clone(), bits(&[1.0, 0.0, 0.0])).unwrap();
    assert_eq!(idx.len(), 1);
    assert_eq!(idx.dim(), Some(3));
}

#[test]
fn test_insert_replaces_existing_id() {
    let mut idx = VectorIndex::new();
    let id = new_id();
    idx.insert(id.clone(), bits(&[1.0, 0.0, 0.0])).unwrap();
    idx.insert(id.clone(), bits(&[0.0, 1.0, 0.0])).unwrap();
    assert_eq!(idx.len(), 1);
    let entries = idx.all_entries();
    assert_eq!(entries[0].id, id);
    assert_eq!(entries[0].embedding, bits(&[0.0, 1.0, 0.0]));
}

#[test]
fn insert_of_an_empty_embedding_is_refused() {
    let mut idx = VectorIndex::new();
    let result = idx.insert(new_id(), vec![]);
    assert_eq!(result.unwrap_err().message(), "invalid embedding: embedding must not be empty");
    assert!(idx.is_empty());
    assert_eq!(idx.dim(), None);
}

#[test]
fn insert_of_another_dimension_is_refused() {
    let mut idx = VectorIndex::new();
    idx.insert(new_id(), bits(&[1.0, 0.0])).unwrap();
    let result = idx.insert(new_id(), bits(&[1.0, 0.0, 0.0]));
    assert_eq!(
        result.unwrap_err().message(),
        "invalid embedding: embedding dimension mismatch: expected 2, got 3"
    );
    assert_eq!(idx.len(), 1);
    assert_eq!(idx.dim(), Some(2));
}

#[test]
fn dimension_stays_after_the_last_entry_is_removed() {
    let mut idx = VectorIndex::new();
    let id = new_id();
    idx.insert(id.clone(), bits(&[1.0, 0.0])).unwrap();
    idx.remove(&id);
    assert!(idx.is_empty());
    assert_eq!(idx.dim(), Some(2));
    assert!(idx.insert(new_id(), bits(&[1.0])).is_err());
}

#[test]
fn test_remove_existing() {
    let mut idx = VectorIndex::new();
    let id = new_id();
    idx.insert(id.clone(), bits(&[1.0, 0.0])).unwrap();
    idx.remove(&id);
    assert!(idx.is_empty());
}

#[test]
fn test_remove_nonexistent_is_noop() {
    let mut idx = VectorIndex::new();
    idx.insert(new_id(), bits(&[1.0, 0.0])).unwrap();
    idx.remove(&new_id());
    assert_eq!(idx.len(), 1);
}

#[test]
fn remove_moves_the_last_entry_into_the_gap() {
    let mut idx = VectorIndex::new();
    let ids = make_ids(3);
    for id in &ids {
        idx.insert(id.clone(), bits(&[1.0, 0.0])).unwrap();
    }
    idx.remove(&ids[0]);
    let left: Vec<FactId> = idx.all_entries().into_iter().map(|e| e.id).collect();
    assert_eq!(left, vec![ids[2].clone(), ids[1].clone()]);
}

#[test]
fn test_search_returns_empty_for_empty_index() {
    let idx = VectorIndex::new();
    let valid: Vec<FactId> = Vec::new();
    let results = idx.search(&FloatMath, &bits(&[1.0, 0.0]), 5, &valid);
    assert!(results.is_empty());
}

#[test]
fn test_search_k_zero_returns_empty() {
    let mut idx = VectorIndex::new();
    let id = new_id();
    idx.insert(id.clone(), bits(&[1.0, 0.0])).unwrap();
    let valid = vec![id];
    let results = idx.search(&FloatMath, &bits(&[1.0, 0.0]), 0, &valid);
    assert!(results.is_empty());
}

#[test]
fn test_search_returns_top_k_in_order() {
    let mut idx = VectorIndex::new();
    let ids = make_ids(3);

    idx.insert(ids[0].clone(), bits(&[1.0, 0.0, 0.0])).unwrap();
    idx.insert(ids[1].clone(), bits(&[0.0, 1.0, 0.0])).unwrap();
    idx.insert(ids[2].clone(), bits(&[-1.0, 0.0, 0.0])).unwrap();

    let valid = ids.clone();
    let results = idx.search(&FloatMath, &bits(&[1.0, 0.0, 0.0]), 3, &valid);

    assert_eq!(results.len(), 3);
    assert_eq!(results[0].0, ids[0]);
    assert!((f32::from_bits(results[0].1) - 1.0).abs() < 1e-6);
    assert_eq!(results[1].0, ids[1]);
    assert_eq!(results[2].0, ids[2]);
    assert!((f32::from_bits(results[2].1) + 1.0).abs() < 1e-6);
}

#[test]
fn test_search_truncates_to_k() {
    let mut idx = VectorIndex::new();
    let ids = make_ids(5);
    for id in &ids {
        idx.insert(id.clone(), bits(&[1.0, 0.0])).unwrap();
    }
    let valid = ids.clone();
    let results = idx.search(&FloatMath, &bits(&[1.0, 0.0]), 3, &valid);
    assert_eq!(results.len(), 3);
}

#[test]
fn test_search_respects_valid_ids_filter() {
    let mut idx = VectorIndex::new();
    let ids = make_ids(3);
    for id in &ids {
        idx.insert(id.clone(), bits(&[1.0, 0.0])).unwrap();
    }

    let valid: Vec<FactId> = vec![ids[0].clone(), ids[2].clone()];
    let results = idx.search(&FloatMath, &bits(&[1.0, 0.0]), 10, &valid);

    assert_eq!(results.len(), 2);
    let returned_ids: Vec<FactId> = results.into_iter().map(|(id, _)| id).collect();
    assert!(returned_ids.contains(&ids[0]));
    assert!(!returned_ids.contains(&ids[1]));
    assert!(returned_ids.contains(&ids[2]));
}

#[test]
fn test_search_empty_valid_ids_returns_empty() {
    let mut idx = VectorIndex::new();
    idx.insert(new_id(), bits(&[1.0, 0.0])).unwrap();
    let valid: Vec<FactId> = Vec::new();
    let results = idx.search(&FloatMath, &bits(&[1.0, 0.0]), 5, &valid);
    assert!(results.is_empty());
}

#[test]
fn test_search_zero_query_returns_empty() {
    let mut idx = VectorIndex::new();
    let id = new_id();
    idx.insert(id.clone(), bits(&[1.0, 0.0])).unwrap();
    let valid = vec![id];
    let results = idx.search(&FloatMath, &bits(&[0.0, 0.0]), 5, &valid);
    assert!(results.is_empty());
}

#[test]
fn equal_similarities_stand_by_ascending_id() {
    let mut idx = VectorIndex::new();
    for id in ["c", "a", "b"] {
        idx.insert(FactId::from_text(id), bits(&[1.0, 0.0])).unwrap();
    }
    let valid: Vec<FactId> = ["a", "b", "c"].iter().map(|s| FactId::from_text(s)).collect();
    let results = idx.search(&FloatMath, &bits(&[1.0, 0.0]), 2, &valid);
    let ids: Vec<&str> = results.iter().map(|(id, _)| id.0.as_str()).collect();
    assert_eq!(ids, vec!["a", "b"]);
}

#[test]
fn candidates_keep_index_order() {
    let mut idx = VectorIndex::new();
    for id in ["c", "a", "b"] {
        idx.insert(FactId::from_text(id), bits(&[1.0])).unwrap();
    }
    let allow = vec![FactId::from_text("b"), FactId::from_text("c")];
    let got: Vec<String> = idx.candidates(&allow).into_iter().map(|e| e.id.0).collect();
    assert_eq!(got, vec!["c".to_string(), "b".to_string()]);
}

#[test]
fn embeddings_pack_as_little_endian_bytes() {
    let packed = encode_embedding(&bits(&[1.0, -2.5]));
    assert_eq!(packed, vec![0x00, 0x00, 0x80, 0x3f, 0x00, 0x00, 0x20, 0xc0]);
    let mut same = Vec::new();
    for x in [1.0_f32, -2.5] {
        same.extend_from_slice(&x.to_le_bytes());
    }
    assert_eq!(packed, same);
    assert_eq!(encode_embedding(&vec![]), Vec::<u8>::new());
}

#[test]
fn packed_embeddings_unpack_to_themselves() {
    let v = bits(&[0.25, 1.0e-30, f32::MAX, -0.0]);
    assert_eq!(decode_embedding("a", &encode_embedding(&v)).unwrap(), v);
    assert_eq!(decode_embedding("a", &vec![]).unwrap(), Vec::<u32>::new());
    assert_eq!(decode_embedding("a", &vec![1, 2, 3, 4]).unwrap(), vec![0x0403_0201]);
}

#[test]
fn bytes_that_are_no_whole_components_are_corrupt() {
    for n in [1usize, 2, 3, 5, 7] {
        let err = decode_embedding("01", &vec![0u8; n]).unwrap_err();
        assert_eq!(
            err.message(),
            format!("storage error: corrupt embedding for fact 01: byte length {n} is not a multiple of 4")
        );
    }
}

#[test]
fn dimension_check_before_a_write() {
    assert!(matches!(check_embedding_dim(None, 0), Err(KronroeError::InvalidEmbedding(_))));
    assert!(matches!(check_embedding_dim(Some(3), 0), Err(KronroeError::InvalidEmbedding(_))));
    assert!(matches!(check_embedding_dim(None, 3), Ok(Some(3))));
    assert!(matches!(check_embedding_dim(Some(3), 3), Ok(None)));
    assert!(matches!(check_embedding_dim(Some(3), 2), Err(KronroeError::InvalidEmbedding(_))));
}

#[test]
fn index_is_rebuilt_from_rows() {
    let rows = vec![
        EmbeddingRow { id: "a".to_string(), bytes: encode_embedding(&bits(&[1.0, 0.0])) },
        EmbeddingRow { id: "b".to_string(), bytes: encode_embedding(&bits(&[0.0, 1.0])) },
    ];
    let idx = rebuild_vector_index(&rows).unwrap();
    assert_eq!(idx.len(), 2);
    assert_eq!(idx.dim(), Some(2));
    let entries = idx.all_entries();
    assert_eq!(entries[1].id.0, "b");
    assert_eq!(entries[1].embedding, bits(&[0.0, 1.0]));
    assert!(rebuild_vector_index(&vec![]).unwrap().is_empty());
}

#[test]
fn rebuild_stops_at_a_corrupt_row() {
    let rows = vec![
        EmbeddingRow { id: "a".to_string(), bytes: encode_embedding(&bits(&[1.0, 0.0])) },
        EmbeddingRow { id: "b".to_string(), bytes: vec![1, 2, 3] },
    ];
    assert!(matches!(rebuild_vector_index(&rows), Err(KronroeError::Storage(_))));
    let rows = vec![
        EmbeddingRow { id: "a".to_string(), bytes: encode_embedding(&bits(&[1.0, 0.0])) },
        EmbeddingRow { id: "b".to_string(), bytes: encode_embedding(&bits(&[1.0])) },
    ];
    assert!(matches!(rebuild_vector_index(&rows), Err(KronroeError::InvalidEmbedding(_))));
}

#[test]
fn top_hits_are_the_best_in_rank_order() {
    let scored: Vec<(FactId, u32)> = [("d", 0.5_f32), ("b", 0.9), ("c", 0.9), ("a", -1.0), ("e", 0.9)]
        .iter()
        .map(|(id, s)| (FactId::from_text(id), s.to_bits()))
        .collect();
    let names = |hits: Vec<(FactId, u32)>| -> Vec<(String, f32)> {
        hits.into_iter().map(|(id, s)| (id.0, f32::from_bits(s))).collect()
    };
    assert_eq!(
        names(kronroe::retrieval::top_hits(&scored, 4)),
        vec![
            ("b".to_string(), 0.9),
            ("c".to_string(), 0.9),
            ("e".to_string(), 0.9),
            ("d".to_string(), 0.5)
        ]
    );
    assert_eq!(names(kronroe::retrieval::top_hits(&scored, 9)).len(), 5);
    assert_eq!(names(kronroe::retrieval::top_hits(&scored, 9))[4], ("a".to_string(), -1.0));
    assert!(kronroe::retrieval::top_hits(&scored, 0).is_empty());
    assert!(kronroe::retrieval::top_hits(&vec![], 3).is_empty());
}
