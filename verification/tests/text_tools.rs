use chrono::{DateTime, Utc};
use kronroe::error::KronroeError;
use kronroe::extract::{is_whitespace, parse_works_at};
use kronroe::fact::{Fact, FactId, Value};
use kronroe::graph::TemporalGraph;
use kronroe::instant::Instant;
use kronroe::keys::{compose_key, compose_pair_prefix, compose_subject_prefix, key_precedes, same_text, starts_with};
use kronroe::last_error::{clear_last_error, set_last_error, LastError};
use kronroe::lexical::{falls_back, lexical_hits, matches_wanted, HIT_CAP};
use kronroe::search::{
    collect_aliases, document_content, find_fact, hydrate_hits, is_blank, names_alias,
    normalize_predicate, query_tokens, search_documents, SearchDoc,
};

fn dt(s: &str) -> Instant {
    let t: DateTime<Utc> = s.parse().unwrap();
    Instant::new(t.timestamp(), t.timestamp_subsec_nanos())
}

fn fact(id: &str, subject: &str, predicate: &str, object: Value) -> Fact {
    let t = dt("2024-01-01T00:00:00Z");
    Fact::assemble(FactId::from_text(id), t, subject, predicate, object, t)
}

#[test]
fn works_at_splits_subject_and_employer() {
    assert_eq!(parse_works_at("Alice works at Acme"), Some(("Alice", "Acme")));
    assert_eq!(parse_works_at("  Alice Smith   WORKS At  Acme Corp \n"), Some(("Alice Smith", "Acme Corp")));
    assert_eq!(parse_works_at("a works at b works at c"), Some(("a", "b works at c")));
    assert_eq!(parse_works_at("İpek works at Şirket"), Some(("İpek", "Şirket")));
}

#[test]
fn works_at_needs_the_phrase_and_both_parts() {
    assert_eq!(parse_works_at("Alice works for Acme"), None);
    assert_eq!(parse_works_at(" works at Acme"), None);
    assert_eq!(parse_works_at("Alice works at "), None);
    assert_eq!(parse_works_at("Alice works at \u{a0} "), None);
    assert_eq!(parse_works_at("Aliceworks at Acme"), None);
    assert_eq!(parse_works_at(""), None);
    assert_eq!(parse_works_at("works at"), None);
}

#[test]
fn white_space_is_what_the_standard_library_says() {
    for code in 0u32..0x3_0000 {
        if let Some(c) = char::from_u32(code) {
            assert_eq!(is_whitespace(c), c.is_whitespace(), "U+{code:04X}");
        }
    }
}

#[test]
fn last_error_is_set_and_cleared() {
    let mut slot = LastError::new();
    assert_eq!(slot.message, None);
    set_last_error(&mut slot, "boom".to_string());
    assert_eq!(slot.message, Some("boom".to_string()));
    clear_last_error(&mut slot);
    assert_eq!(slot.message, None);
    set_last_error(&mut slot, "bad\0text".to_string());
    assert_eq!(slot.message, None);
    clear_last_error(&mut slot);
    assert_eq!(slot.message, None);
}

#[test]
fn keys_are_subject_predicate_and_id_joined_by_colons() {
    assert_eq!(compose_key("alice", "works_at", "01"), "alice:works_at:01");
    assert_eq!(compose_pair_prefix("alice", "works_at"), "alice:works_at:");
    assert_eq!(compose_subject_prefix("alice"), "alice:");
    assert_eq!(compose_key("", "", ""), "::");
}

#[test]
fn key_order_is_the_order_of_the_texts() {
    let samples = ["", "a", "a:", "a:b", "ab", "b", "é", "z", "alice:works_at:01", "alice:works_at:02"];
    for a in samples {
        for b in samples {
            assert_eq!(key_precedes(a, b), a < b, "{a:?} {b:?}");
            assert_eq!(starts_with(a, b), a.starts_with(b), "{a:?} {b:?}");
            assert_eq!(same_text(a, b), a == b, "{a:?} {b:?}");
        }
    }
}

#[test]
fn error_messages_name_their_kind() {
    assert_eq!(KronroeError::Storage("x".into()).message(), "storage error: x");
    assert_eq!(KronroeError::Serialization("x".into()).message(), "serialization error: x");
    assert_eq!(KronroeError::NotFound("x".into()).message(), "not found: x");
    assert_eq!(KronroeError::Search("x".into()).message(), "search error: x");
    assert_eq!(KronroeError::InvalidEmbedding("x".into()).message(), "invalid embedding: x");
    assert_eq!(KronroeError::Internal("x".into()).message(), "internal error: x");
}

#[test]
fn blank_queries_and_zero_limits_find_nothing() {
    let mut db = TemporalGraph::open_in_memory().unwrap();
    assert!(db.search("alice", 10).unwrap().is_empty());
    db.assert_fact("alice", "works_at", Value::text("Acme"), dt("2024-01-01T00:00:00Z")).unwrap();
    assert!(db.search("", 10).unwrap().is_empty());
    assert!(db.search(" \t\n", 10).unwrap().is_empty());
    assert!(db.search("alice", 0).unwrap().is_empty());
    assert_eq!(db.search("alice", 10).unwrap().len(), 1);
    assert!(is_blank("") && is_blank(" \u{3000}") && !is_blank(" a "));
}

#[test]
fn search_finds_by_alias_and_respects_the_limit() {
    let mut db = TemporalGraph::open_in_memory().unwrap();
    let t = dt("2024-01-01T00:00:00Z");
    db.assert_fact("alice", "works_at", Value::text("Acme"), t).unwrap();
    db.assert_fact("alice", "has_alias", Value::text("ally"), t).unwrap();
    db.assert_fact("bob", "works_at", Value::text("BetaCorp"), t).unwrap();

    let by_alias = db.search("ally", 10).unwrap();
    assert_eq!(by_alias.len(), 2);
    assert!(by_alias.iter().all(|f| f.subject == "alice"));
    assert_eq!(db.search("works at", 1).unwrap().len(), 1);
    assert!(db.search("zzzzzzzz", 10).unwrap().is_empty());
    let bad = db.search("works_at:[", 10);
    assert!(matches!(bad, Err(KronroeError::Search(_))));
}

#[test]
fn lexical_hits_return_ids_best_first() {
    let docs = vec![
        SearchDoc { id: "1".into(), content: "rust rust rust".into() },
        SearchDoc { id: "2".into(), content: "python and a little rust among many other words".into() },
        SearchDoc { id: "3".into(), content: "golang".into() },
    ];
    assert_eq!(lexical_hits(&docs, "rust", 10).unwrap(), vec!["1".to_string(), "2".to_string()]);
    assert_eq!(lexical_hits(&docs, "rust", 1).unwrap(), vec!["1".to_string()]);
    assert_eq!(lexical_hits(&docs, "golnag", 10).unwrap(), vec!["3".to_string()]);
    assert!(lexical_hits(&docs, "nothing", 10).unwrap().is_empty());
}

#[test]
fn documents_hold_subject_predicate_aliases_and_object() {
    let facts = vec![
        fact("1", "alice", "works_at", Value::text("Acme")),
        fact("2", "alice", "has_alias", Value::text("ally")),
        fact("3", "alice", "aka", Value::entity("al")),
        fact("4", "alice", "alias", Value::Boolean(true)),
        fact("5", "bob", "age", Value::Number(41.0_f64.to_bits())),
        fact("6", "bob", "nickname", Value::text("bobby")),
    ];
    assert_eq!(collect_aliases(&facts, "alice"), vec!["ally".to_string(), "al".to_string()]);
    assert!(collect_aliases(&facts, "bob").is_empty());
    let docs = search_documents(&facts);
    assert_eq!(docs.len(), 6);
    assert_eq!(docs[0].id, "1");
    assert_eq!(docs[0].content, "alice works_at ally al Acme works at");
    assert_eq!(docs[1].content, "alice has_alias ally al ally has alias");
    assert_eq!(docs[3].content, "alice alias ally al alias");
    assert_eq!(docs[4].content, "bob age age");
    assert_eq!(
        document_content(&facts[5], &vec![]),
        "bob nickname bobby nickname"
    );
    assert_eq!(normalize_predicate("has__role_"), "has  role ");
    assert!(names_alias("alias") && names_alias("has_alias") && names_alias("aka"));
    assert!(!names_alias("Alias") && !names_alias("aliases") && !names_alias(""));
}

#[test]
fn queries_split_at_white_space() {
    assert_eq!(query_tokens("  alice   works\tat\u{a0}acme "), vec!["alice", "works", "at", "acme"]);
    assert_eq!(query_tokens("alcie"), vec!["alcie"]);
    assert!(query_tokens("").is_empty());
    assert!(query_tokens(" \n ").is_empty());
    for q in ["a b", " über  straße ", "x"] {
        let want: Vec<String> = q.split_whitespace().map(|s| s.to_string()).collect();
        assert_eq!(query_tokens(q), want);
    }
}

#[test]
fn ranked_ids_turn_back_into_facts() {
    let facts = vec![
        fact("1", "alice", "works_at", Value::text("Acme")),
        fact("2", "bob", "works_at", Value::text("Beta")),
        fact("1", "carol", "works_at", Value::text("Gamma")),
    ];
    let ids = vec!["2".to_string(), "9".to_string(), "1".to_string()];
    let got = hydrate_hits(&facts, &ids);
    let subjects: Vec<&str> = got.iter().map(|f| f.subject.as_str()).collect();
    assert_eq!(subjects, vec!["bob", "carol"]);
    assert!(find_fact(&facts, "9").is_none());
    assert_eq!(find_fact(&facts, "2").unwrap().subject, "bob");
}

#[test]
fn values_come_from_strings_and_booleans() {
    assert!(matches!(Value::from("Acme".to_string()), Value::Text(ref s) if s == "Acme"));
    assert!(matches!(Value::from(false), Value::Boolean(false)));
    let v: Value = true.into();
    assert!(matches!(v, Value::Boolean(true)));
    assert_eq!(Value::text("a").as_text(), Some("a".to_string()));
    assert_eq!(Value::entity("b").as_text(), Some("b".to_string()));
    assert_eq!(Value::Number(7).as_text(), None);
    assert_eq!(Value::Boolean(true).as_text(), None);
}

#[test]
fn numbers_are_written_in_decimal() {
    for n in [0usize, 1, 9, 10, 11, 99, 100, 101, 1_234_567_890, usize::MAX] {
        assert_eq!(kronroe::error::decimal_text(n), n.to_string());
    }
    assert_eq!(
        kronroe::error::corrupt_embedding("01ABC", 1027).message(),
        "storage error: corrupt embedding for fact 01ABC: byte length 1027 is not a multiple of 4"
    );
}

#[test]
fn no_documents_give_no_hits() {
    assert!(lexical_hits(&vec![], "rust", 10).unwrap().is_empty());
    assert!(lexical_hits(&vec![], "works_at:[", usize::MAX).unwrap().is_empty());
    let one = vec![SearchDoc { id: "1".into(), content: "rust".into() }];
    assert_eq!(lexical_hits(&one, "rust", usize::MAX).unwrap(), vec!["1".to_string()]);
}

#[test]
fn a_limit_of_zero_finds_nothing() {
    let docs = vec![SearchDoc { id: "1".into(), content: "rust".into() }];
    assert!(lexical_hits(&docs, "rust", 0).unwrap().is_empty());
    assert!(lexical_hits(&docs, "works_at:[", 0).unwrap().is_empty());
}

#[test]
fn present_ids_among_the_first_are_kept() {
    let top = vec![Some("a".to_string()), None, Some("b".to_string()), Some("c".to_string())];
    assert_eq!(kronroe::search::kept_ids(&top, 3), vec!["a".to_string(), "b".to_string()]);
    assert_eq!(kronroe::search::kept_ids(&top, 9).len(), 3);
    assert!(kronroe::search::kept_ids(&top, 0).is_empty());
    assert!(kronroe::search::kept_ids(&vec![], 5).is_empty());
}

#[test]
fn repeated_ids_are_kept_once() {
    let ids: Vec<String> = ["b", "a", "b", "c", "a"].iter().map(|s| s.to_string()).collect();
    assert_eq!(
        kronroe::search::unique_ids(&ids),
        vec!["b".to_string(), "a".to_string(), "c".to_string()]
    );
    assert!(kronroe::search::unique_ids(&vec![]).is_empty());
    assert!(kronroe::search::holds_text(&ids, "c") && !kronroe::search::holds_text(&ids, "d"));
}

#[test]
fn search_returns_each_fact_once() {
    let mut db = TemporalGraph::open_in_memory().unwrap();
    let t = dt("2024-01-01T00:00:00Z");
    db.record(fact("01", "alice", "works_at", Value::text("Acme")));
    db.record(fact("01", "bob", "works_at", Value::text("Acme")));
    db.record(fact("02", "carol", "works_at", Value::text("Acme")));
    let _ = t;
    let hits = db.search("acme", 10).unwrap();
    let ids: Vec<&str> = hits.iter().map(|f| f.id.0.as_str()).collect();
    assert_eq!(hits.len(), 2);
    assert!(ids.contains(&"01") && ids.contains(&"02"));
}

#[test]
fn a_parser_error_keeps_its_own_text() {
    let docs = vec![SearchDoc { id: "1".into(), content: "rust".into() }];
    match lexical_hits(&docs, "works_at:[", 10) {
        Err(KronroeError::Search(m)) => {
            assert!(!m.is_empty());
            assert!(!m.contains("invalid argument"), "{m}");
        }
        other => panic!("expected a search error, got {other:?}"),
    }
}

#[test]
fn a_search_asks_for_no_more_than_it_can_get() {
    assert_eq!(matches_wanted(10, 3), 3);
    assert_eq!(matches_wanted(2, 3), 2);
    assert_eq!(matches_wanted(3, 3), 3);
    assert_eq!(matches_wanted(usize::MAX, usize::MAX), HIT_CAP);
    assert_eq!(matches_wanted(HIT_CAP + 1, HIT_CAP + 2), HIT_CAP);
    assert_eq!(matches_wanted(0, 5), 0);
    assert_eq!(matches_wanted(5, 0), 0);
    assert_eq!(HIT_CAP, 1_000_000);
    assert!(falls_back(&vec![]));
    assert!(!falls_back(&vec![None]));
    assert!(!falls_back(&vec![Some("a".to_string())]));
}

#[test]
fn a_typo_is_found_only_by_the_fallback() {
    let docs = vec![
        SearchDoc { id: "1".into(), content: "alice works_at Acme works at".into() },
        SearchDoc { id: "2".into(), content: "bob works_at Beta works at".into() },
    ];
    assert_eq!(lexical_hits(&docs, "alcie", 10).unwrap(), vec!["1".to_string()]);
    assert_eq!(lexical_hits(&docs, "alic", 10).unwrap(), vec!["1".to_string()]);
    assert!(lexical_hits(&docs, "alxxe", 10).unwrap().is_empty());
    assert_eq!(lexical_hits(&docs, "alcie bob", 10).unwrap(), vec!["2".to_string()]);
}
