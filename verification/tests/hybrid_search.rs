use chrono::{DateTime, Utc};
use kronroe::error::KronroeError;
use kronroe::fact::{Fact, FactId, Value};
use kronroe::graph::TemporalGraph;
use kronroe::hybrid::{
    applies_temporal_adjustment, double_rank_score, fused_ids, is_negative, is_positive, is_zero,
    ranks_of, single_rank_score, validate_hybrid_params, HybridFusionStrategy, HybridParams,
    TemporalAdjustment,
};
use kronroe::instant::Instant;
use kronroe::rank::{rank_order, ranks_above, Scored};
use kronroe::retrieval::ScoreMath;

fn dt(s: &str) -> Instant {
    let t: DateTime<Utc> = s.parse().unwrap();
    Instant::new(t.timestamp(), t.timestamp_subsec_nanos())
}

fn now() -> Instant {
    let t = Utc::now();
    Instant::new(t.timestamp(), t.timestamp_subsec_nanos())
}

fn w(x: f32) -> u32 {
    x.to_bits()
}

fn bits(v: &[f32]) -> Vec<u32> {
    v.iter().map(|x| x.to_bits()).collect()
}

fn floats(v: &[u32]) -> Vec<f32> {
    v.iter().map(|x| f32::from_bits(*x)).collect()
}

fn l2_norm(v: &[f32]) -> f32 {
    v.iter().map(|x| x * x).sum::<f32>().sqrt()
}

fn cosine_similarity(a: &[f32], b: &[f32], a_norm: f32) -> f32 {
    if a.len() != b.len() {
        return 0.0;
    }
    let b_norm = l2_norm(b);
    if b_norm == 0.0 {
        return 0.0;
    }
    let dot: f32 = a.iter().zip(b.iter()).map(|(x, y)| x * y).sum();
    dot / (a_norm * b_norm)
}

struct FloatMath;

impl ScoreMath for FloatMath {
    fn is_null(&self, v: &Vec<u32>) -> bool {
        l2_norm(&floats(v)) == 0.0
    }

    fn cosine(&self, query: &Vec<u32>, embedding: &Vec<u32>) -> u32 {
        let q = floats(query);
        cosine_similarity(&q, &floats(embedding), l2_norm(&q)).to_bits()
    }

    fn rrf_term(&self, weight: u32, rank_constant: usize, rank: usize) -> u64 {
        (f32::from_bits(weight) as f64 / (rank_constant as f64 + (rank + 1) as f64)).to_bits()
    }

    fn sum(&self, a: u64, b: u64) -> u64 {
        (f64::from_bits(a) + f64::from_bits(b)).to_bits()
    }

    fn half_life_adjustment(&self, age_secs: u64, half_life_days: u32, temporal_weight: u32) -> u64 {
        let scale = (0.1_f64 * f32::from_bits(temporal_weight) as f64).max(0.0);
        let age_days = age_secs as f64 / 86_400.0;
        let decay = (-std::f64::consts::LN_2 * age_days / f32::from_bits(half_life_days) as f64).exp();
        ((decay - 0.5) * 2.0 * scale).clamp(-scale, scale).to_bits()
    }
}

fn params(
    k: usize,
    candidate_window: usize,
    text_weight: f32,
    vector_weight: f32,
    temporal_weight: f32,
    temporal_adjustment: TemporalAdjustment,
) -> HybridParams {
    HybridParams {
        k,
        candidate_window,
        rank_constant: 60,
        text_weight: w(text_weight),
        vector_weight: w(vector_weight),
        temporal_weight: w(temporal_weight),
        temporal_adjustment,
        fusion: HybridFusionStrategy::Rrf,
    }
}

fn one_keyword_doc(t: Instant) -> TemporalGraph {
    let mut db = TemporalGraph::open_in_memory().unwrap();
    db.assert_fact_with_embedding("doc", "note", Value::text("keyword"), t, bits(&[1.0, 0.0]))
        .unwrap();
    db
}

#[test]
fn hybrid_search_returns_hits_with_consistent_breakdown() {
    let mut db = TemporalGraph::open_in_memory().unwrap();
    let t = now();
    db.assert_fact_with_embedding(
        "alice",
        "bio",
        Value::text("expert Rust systems programmer"),
        t,
        bits(&[1.0, 0.0, 0.0]),
    )
    .unwrap();
    db.assert_fact_with_embedding(
        "bob",
        "bio",
        Value::text("Python data scientist"),
        t,
        bits(&[0.0, 1.0, 0.0]),
    )
    .unwrap();
    db.assert_fact_with_embedding(
        "carol",
        "bio",
        Value::text("Rust and embedded systems"),
        t,
        bits(&[0.9, 0.1, 0.0]),
    )
    .unwrap();

    let hits = db
        .search_hybrid_experimental(
            &FloatMath,
            "Rust",
            &bits(&[1.0, 0.0, 0.0]),
            HybridParams::default(),
            None,
        )
        .unwrap();
    assert!(!hits.is_empty(), "hybrid search should return results");

    for (_fact, breakdown) in &hits {
        let expected = f64::from_bits(breakdown.text_rrf_contrib)
            + f64::from_bits(breakdown.vector_rrf_contrib)
            + f64::from_bits(breakdown.temporal_adjustment);
        assert!(
            (f64::from_bits(breakdown.final_score) - expected).abs() < 1e-9,
            "breakdown must sum to final_score"
        );
    }
    for pair in hits.windows(2) {
        assert!(f64::from_bits(pair[0].1.final_score) >= f64::from_bits(pair[1].1.final_score));
    }
}

#[test]
fn hybrid_search_ties_are_deterministic_by_fact_id() {
    let mut db = TemporalGraph::open_in_memory().unwrap();
    let t = now();
    db.assert_fact_with_embedding(
        "doc-text",
        "bio",
        Value::text("rare-hybrid-token"),
        t,
        bits(&[1.0, 0.0]),
    )
    .unwrap();
    db.assert_fact_with_embedding("doc-vector", "bio", Value::text("unrelated"), t, bits(&[0.0, 1.0]))
        .unwrap();

    let p = params(2, 1, 0.5, 0.5, 0.0, TemporalAdjustment::Off);

    let hits = db
        .search_hybrid_experimental(&FloatMath, "rare-hybrid-token", &bits(&[0.0, 1.0]), p, None)
        .unwrap();
    assert_eq!(hits.len(), 2);
    assert!(
        (f64::from_bits(hits[0].1.final_score) - f64::from_bits(hits[1].1.final_score)).abs() < 1e-12,
        "test setup must produce equal scores"
    );
    assert!(hits[0].0.id.0 <= hits[1].0.id.0, "tie-break should use FactId lexicographic order");
}

#[test]
fn hybrid_search_rejects_invalid_params() {
    let mut db = TemporalGraph::open_in_memory().unwrap();
    db.assert_fact_with_embedding("alice", "bio", Value::text("Rust"), now(), bits(&[1.0, 0.0]))
        .unwrap();

    let bad = HybridParams { rank_constant: 0, ..HybridParams::default() };
    let result = db.search_hybrid_experimental(&FloatMath, "Rust", &bits(&[1.0, 0.0]), bad, None);
    assert!(
        matches!(result, Err(KronroeError::Search(_))),
        "invalid params should return a validation error"
    );
}

#[test]
fn hybrid_half_life_days_boosts_recent_facts() {
    let mut db = TemporalGraph::open_in_memory().unwrap();

    let old_time = dt("2020-01-01T00:00:00Z");
    let recent_time = dt("2026-02-01T00:00:00Z");
    let query_time = dt("2026-02-20T00:00:00Z");

    db.assert_fact_with_embedding(
        "old-doc",
        "bio",
        Value::text("temporal-keyword"),
        old_time,
        bits(&[1.0, 0.0]),
    )
    .unwrap();
    db.assert_fact_with_embedding(
        "new-doc",
        "bio",
        Value::text("temporal-keyword"),
        recent_time,
        bits(&[1.0, 0.0]),
    )
    .unwrap();

    let p = params(2, 10, 0.3, 0.3, 0.4, TemporalAdjustment::HalfLifeDays { days: w(90.0) });

    let hits = db
        .search_hybrid_experimental(
            &FloatMath,
            "temporal-keyword",
            &bits(&[1.0, 0.0]),
            p,
            Some(query_time),
        )
        .unwrap();
    assert_eq!(hits.len(), 2, "should return both facts");
    assert_eq!(
        hits[0].0.subject, "new-doc",
        "recent fact should rank first with half-life decay"
    );
    assert!(
        f64::from_bits(hits[0].1.temporal_adjustment) > f64::from_bits(hits[1].1.temporal_adjustment),
        "recent fact temporal adjustment should exceed old fact"
    );
}

#[test]
fn hybrid_decay_zero_age_gives_max_positive_adjustment() {
    let t = dt("2026-01-01T00:00:00Z");
    let db = one_keyword_doc(t);
    let p = params(1, 10, 0.5, 0.5, 1.0, TemporalAdjustment::HalfLifeDays { days: w(90.0) });

    let hits = db
        .search_hybrid_experimental(&FloatMath, "keyword", &bits(&[1.0, 0.0]), p, Some(t))
        .unwrap();
    assert_eq!(hits.len(), 1);

    let adj = f64::from_bits(hits[0].1.temporal_adjustment);
    assert!((adj - 0.1).abs() < 1e-9, "zero-age adjustment should be +0.1, got {adj}");
}

#[test]
fn hybrid_decay_one_half_life_gives_zero_adjustment() {
    let t = dt("2026-01-01T00:00:00Z");
    let db = one_keyword_doc(t);
    let half_life_days = 90.0_f32;
    let p = params(
        1,
        10,
        0.5,
        0.5,
        1.0,
        TemporalAdjustment::HalfLifeDays { days: w(half_life_days) },
    );

    let query_time = Instant::new(t.secs + 90 * 86_400, t.nanos);
    let hits = db
        .search_hybrid_experimental(&FloatMath, "keyword", &bits(&[1.0, 0.0]), p, Some(query_time))
        .unwrap();
    assert_eq!(hits.len(), 1);

    let adj = f64::from_bits(hits[0].1.temporal_adjustment);
    assert!(adj.abs() < 1e-6, "one-half-life-old adjustment should be ~0.0, got {adj}");
}

#[test]
fn hybrid_decay_very_old_fact_gives_negative_adjustment() {
    let t = dt("2000-01-01T00:00:00Z");
    let db = one_keyword_doc(t);
    let p = params(1, 10, 0.5, 0.5, 1.0, TemporalAdjustment::HalfLifeDays { days: w(30.0) });

    let query_time = dt("2026-01-01T00:00:00Z");
    let hits = db
        .search_hybrid_experimental(&FloatMath, "keyword", &bits(&[1.0, 0.0]), p, Some(query_time))
        .unwrap();
    assert_eq!(hits.len(), 1);

    let adj = f64::from_bits(hits[0].1.temporal_adjustment);
    assert!((adj - (-0.1)).abs() < 1e-6, "very old fact adjustment should be ~-0.1, got {adj}");
}

#[test]
fn hybrid_decay_none_gives_zero_adjustment() {
    let t = dt("2020-01-01T00:00:00Z");
    let db = one_keyword_doc(t);
    let p = params(1, 10, 0.5, 0.5, 1.0, TemporalAdjustment::Off);

    let hits = db
        .search_hybrid_experimental(
            &FloatMath,
            "keyword",
            &bits(&[1.0, 0.0]),
            p,
            Some(dt("2026-01-01T00:00:00Z")),
        )
        .unwrap();
    assert_eq!(hits.len(), 1);
    assert!(
        f64::from_bits(hits[0].1.temporal_adjustment).abs() < 1e-12,
        "no temporal adjustment should give zero adjustment"
    );
}

#[test]
fn hybrid_rejects_zero_half_life_days() {
    let db = TemporalGraph::open_in_memory().unwrap();
    let p = params(1, 10, 0.5, 0.5, 1.0, TemporalAdjustment::HalfLifeDays { days: w(0.0) });

    let err = db
        .search_hybrid_experimental(&FloatMath, "test", &vec![], p, None)
        .expect_err("zero half-life days should be rejected");
    assert!(
        err.message().contains("must be > 0"),
        "error should mention days must be > 0: {}",
        err.message()
    );
}

#[test]
fn hybrid_score_is_the_sum_of_reciprocal_rank_terms() {
    let t = dt("2026-01-01T00:00:00Z");
    let db = one_keyword_doc(t);
    let p = params(1, 10, 0.5, 0.25, 0.0, TemporalAdjustment::Off);
    let hits = db
        .search_hybrid_experimental(&FloatMath, "keyword", &bits(&[1.0, 0.0]), p, Some(t))
        .unwrap();
    assert_eq!(hits.len(), 1);
    assert_eq!(f64::from_bits(hits[0].1.text_rrf_contrib), 0.5 / 61.0);
    assert_eq!(f64::from_bits(hits[0].1.vector_rrf_contrib), 0.25 / 61.0);
    assert_eq!(f64::from_bits(hits[0].1.final_score), 0.5 / 61.0 + 0.25 / 61.0);
    assert_eq!(f64::from_bits(hits[0].1.temporal_adjustment), 0.0);
}

#[test]
fn hybrid_works_on_the_vector_channel_alone() {
    let t = dt("2026-01-01T00:00:00Z");
    let db = one_keyword_doc(t);
    let p = params(3, 10, 0.5, 0.5, 0.0, TemporalAdjustment::Off);
    let hits = db
        .search_hybrid_experimental(&FloatMath, "   ", &bits(&[1.0, 0.0]), p, Some(t))
        .unwrap();
    assert_eq!(hits.len(), 1);
    assert_eq!(f64::from_bits(hits[0].1.text_rrf_contrib), 0.0);
    let wrong_dim = db.search_hybrid_experimental(&FloatMath, "keyword", &bits(&[1.0]), p, Some(t));
    assert!(matches!(wrong_dim, Err(KronroeError::InvalidEmbedding(_))));
}

#[test]
fn default_params_are_valid() {
    let d = HybridParams::default();
    assert_eq!(d.k, 10);
    assert_eq!(d.candidate_window, 50);
    assert_eq!(d.rank_constant, 60);
    assert_eq!(f32::from_bits(d.text_weight), 0.5);
    assert_eq!(f32::from_bits(d.vector_weight), 0.5);
    assert_eq!(f32::from_bits(d.temporal_weight), 0.0);
    assert_eq!(d.temporal_adjustment, TemporalAdjustment::Off);
    assert_eq!(d.fusion, HybridFusionStrategy::Rrf);
    assert!(validate_hybrid_params(&d).is_ok());
    assert!(!applies_temporal_adjustment(&d));
}

#[test]
fn each_rule_on_params_has_its_message() {
    let ok = HybridParams::default();
    let cases: Vec<(HybridParams, &str)> = vec![
        (HybridParams { k: 0, ..ok }, "hybrid-experimental: `k` must be >= 1"),
        (
            HybridParams { candidate_window: 0, ..ok },
            "hybrid-experimental: `candidate_window` must be >= 1",
        ),
        (HybridParams { rank_constant: 0, ..ok }, "hybrid-experimental: `rank_constant` must be >= 1"),
        (
            HybridParams { text_weight: w(-0.1), ..ok },
            "hybrid-experimental: weights must be non-negative",
        ),
        (
            HybridParams { vector_weight: w(-1.0), ..ok },
            "hybrid-experimental: weights must be non-negative",
        ),
        (
            HybridParams { temporal_weight: w(f32::NEG_INFINITY), ..ok },
            "hybrid-experimental: weights must be non-negative",
        ),
        (
            HybridParams { text_weight: w(0.0), vector_weight: w(-0.0), ..ok },
            "hybrid-experimental: at least one of `text_weight` or `vector_weight` must be > 0",
        ),
        (
            HybridParams {
                temporal_adjustment: TemporalAdjustment::HalfLifeDays { days: w(-3.0) },
                ..ok
            },
            "hybrid-experimental: `HalfLifeDays.days` must be > 0",
        ),
        (
            HybridParams { k: 0, rank_constant: 0, ..ok },
            "hybrid-experimental: `k` must be >= 1",
        ),
    ];
    for (p, text) in cases {
        match validate_hybrid_params(&p) {
            Err(KronroeError::Search(m)) => assert_eq!(m, text),
            other => panic!("expected a search error, got {other:?}"),
        }
    }
    let vector_only = HybridParams { text_weight: w(0.0), ..ok };
    assert!(validate_hybrid_params(&vector_only).is_ok());
    let decayed = HybridParams {
        temporal_weight: w(0.4),
        temporal_adjustment: TemporalAdjustment::HalfLifeDays { days: w(90.0) },
        ..ok
    };
    assert!(validate_hybrid_params(&decayed).is_ok());
    assert!(applies_temporal_adjustment(&decayed));
}

#[test]
fn sign_tests_agree_with_the_numbers() {
    let samples = [
        0.0_f32,
        -0.0,
        1.0,
        -1.0,
        f32::MIN_POSITIVE,
        -f32::MIN_POSITIVE,
        1.0e-45,
        -1.0e-45,
        f32::MAX,
        f32::MIN,
        f32::INFINITY,
        f32::NEG_INFINITY,
        f32::NAN,
        -f32::NAN,
    ];
    for x in samples {
        assert_eq!(is_zero(x.to_bits()), x == 0.0, "{x}");
        assert_eq!(is_negative(x.to_bits()), x < 0.0, "{x}");
        assert_eq!(is_positive(x.to_bits()), x > 0.0, "{x}");
    }
}

#[test]
fn rank_scores_order_as_the_numbers_do() {
    let singles = [f32::NEG_INFINITY, -2.0_f32, -1.0, -1.0e-40, 0.0, 1.0e-40, 0.5, 1.0, f32::INFINITY];
    for pair in singles.windows(2) {
        assert!(single_rank_score(pair[0].to_bits()) < single_rank_score(pair[1].to_bits()));
    }
    let doubles = [f64::NEG_INFINITY, -2.0_f64, -1.0e-300, 0.0, 1.0e-300, 0.016, 1.0, f64::INFINITY];
    for pair in doubles.windows(2) {
        assert!(double_rank_score(pair[0].to_bits()) < double_rank_score(pair[1].to_bits()));
    }
    assert_eq!(single_rank_score(0), 0x8000_0000);
    assert_eq!(single_rank_score(0x8000_0000), 0x7fff_ffff);
    assert_eq!(double_rank_score(1.0_f64.to_bits()), 0xbff0_0000_0000_0000);
}

#[test]
fn rank_order_takes_the_best_and_breaks_ties_by_id() {
    let items: Vec<Scored> = [("d", 5u64), ("b", 9), ("c", 9), ("a", 1), ("e", 9)]
        .iter()
        .map(|(id, score)| Scored { id: FactId::from_text(id), score: *score })
        .collect();
    assert_eq!(rank_order(&items, 4), vec![1, 2, 4, 0]);
    assert_eq!(rank_order(&items, 9), vec![1, 2, 4, 0, 3]);
    assert_eq!(rank_order(&items, 0), Vec::<usize>::new());
    assert_eq!(rank_order(&vec![], 3), Vec::<usize>::new());
    assert!(ranks_above(&items[1], &items[2]));
    assert!(!ranks_above(&items[2], &items[1]));
    assert!(ranks_above(&items[0], &items[3]));
    assert!(!ranks_above(&items[1], &items[1]));
}

#[test]
fn rank_lists_fuse_by_first_occurrence() {
    let text: Vec<FactId> = ["b", "a", "b"].iter().map(|s| FactId::from_text(s)).collect();
    let vector: Vec<FactId> = ["c", "a"].iter().map(|s| FactId::from_text(s)).collect();
    let fused: Vec<String> = fused_ids(&text, &vector).into_iter().map(|id| id.0).collect();
    assert_eq!(fused, vec!["b".to_string(), "a".to_string(), "c".to_string()]);
    assert_eq!(ranks_of(&text, &FactId::from_text("b")), vec![0, 2]);
    assert_eq!(ranks_of(&vector, &FactId::from_text("a")), vec![1]);
    assert_eq!(ranks_of(&vector, &FactId::from_text("b")), Vec::<usize>::new());
    assert!(fused_ids(&vec![], &vec![]).is_empty());
}

#[test]
fn facts_for_keeps_rank_order() {
    let mut db = TemporalGraph::open_in_memory().unwrap();
    let t = dt("2024-01-01T00:00:00Z");
    for id in ["01", "02", "03"] {
        db.record(Fact::assemble(FactId::from_text(id), t, "s", "p", Value::text(id), t));
    }
    let ranked: Vec<Scored> =
        ["03", "01"].iter().map(|id| Scored { id: FactId::from_text(id), score: 0 }).collect();
    let facts = db.facts_for(&ranked).unwrap();
    let ids: Vec<&str> = facts.iter().map(|f| f.id.0.as_str()).collect();
    assert_eq!(ids, vec!["03", "01"]);
    let missing = vec![Scored { id: FactId::from_text("09"), score: 0 }];
    assert!(matches!(db.facts_for(&missing), Err(KronroeError::NotFound(_))));
}

#[test]
fn fuse_scores_every_id_and_returns_the_best() {
    let ids = |names: &[&str]| -> Vec<FactId> { names.iter().map(|s| FactId::from_text(s)).collect() };
    let text = ids(&["b", "a"]);
    let vector = ids(&["a", "c"]);
    let p = params(2, 10, 0.5, 0.25, 0.0, TemporalAdjustment::Off);
    let hits = kronroe::retrieval::fuse(&FloatMath, &text, &vector, &vec![], &p);
    assert_eq!(hits.len(), 2);
    assert_eq!(hits[0].0 .0, "a");
    assert_eq!(f64::from_bits(hits[0].1.text_rrf_contrib), 0.5 / 62.0);
    assert_eq!(f64::from_bits(hits[0].1.vector_rrf_contrib), 0.25 / 61.0);
    assert_eq!(f64::from_bits(hits[0].1.final_score), 0.5 / 62.0 + 0.25 / 61.0);
    assert_eq!(hits[0].1.temporal_adjustment, 0);
    assert_eq!(hits[1].0 .0, "b");
    assert_eq!(f64::from_bits(hits[1].1.final_score), 0.5 / 61.0);
    assert_eq!(f64::from_bits(hits[1].1.vector_rrf_contrib), 0.0);

    let all = kronroe::retrieval::fuse(&FloatMath, &text, &vector, &vec![], &HybridParams { k: 9, ..p });
    let order: Vec<&str> = all.iter().map(|h| h.0 .0.as_str()).collect();
    assert_eq!(order, vec!["a", "b", "c"]);

    let aged = params(3, 10, 0.5, 0.5, 1.0, TemporalAdjustment::HalfLifeDays { days: w(90.0) });
    let ages = vec![0, 90 * 86_400, 1_000_000 * 86_400];
    let hits = kronroe::retrieval::fuse(&FloatMath, &text, &vector, &ages, &aged);
    let adj = |name: &str| -> f64 {
        f64::from_bits(hits.iter().find(|h| h.0 .0 == name).unwrap().1.temporal_adjustment)
    };
    assert!((adj("b") - 0.1).abs() < 1e-9);
    assert!(adj("a").abs() < 1e-6);
    assert!((adj("c") + 0.1).abs() < 1e-9);
    assert_eq!(hits[0].0 .0, "b");
    for h in &hits {
        let sum = f64::from_bits(h.1.text_rrf_contrib)
            + f64::from_bits(h.1.vector_rrf_contrib)
            + f64::from_bits(h.1.temporal_adjustment);
        assert!((f64::from_bits(h.1.final_score) - sum).abs() < 1e-12);
    }
    assert!(kronroe::retrieval::fuse(&FloatMath, &vec![], &vec![], &vec![], &p).is_empty());
}

#[test]
fn hybrid_succeeds_on_a_blank_query_and_an_empty_store() {
    let db = TemporalGraph::open_in_memory().unwrap();
    let p = params(3, 10, 0.5, 0.5, 0.0, TemporalAdjustment::Off);
    assert!(db.search_hybrid_experimental(&FloatMath, "x", &bits(&[1.0]), p, None).unwrap().is_empty());
    let db = one_keyword_doc(dt("2026-01-01T00:00:00Z"));
    let hits = db.search_hybrid_experimental(&FloatMath, "", &bits(&[0.0, 1.0]), p, None).unwrap();
    assert_eq!(hits.len(), 1);
    assert_eq!(hits[0].0.subject, "doc");
    let none = db.search_hybrid_experimental(&FloatMath, "", &bits(&[0.0, 0.0]), p, None).unwrap();
    assert!(none.is_empty());
}
