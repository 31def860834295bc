//! Tests of the insight model, the record codec, the store, and search.

use hippo::constants::SCALE;
use hippo::models::{Insight, HippoMetadata, ModifyInsightParams, ReinforcementType};
use hippo::dates::CivilDate;
use hippo::codec::{encode_insight, parse_insight, encode_metadata, parse_metadata};
use hippo::storage::{Store, StorageError, load_metadata};
use hippo::search::search;

fn b(s: &str) -> Vec<u8> {
    s.as_bytes().to_vec()
}

fn bs(items: &[&str]) -> Vec<Vec<u8>> {
    items.iter().map(|s| b(s)).collect()
}

/// A fully pinned record for deterministic codec and scoring tests.
fn fixed_insight() -> Insight {
    Insight {
        uuid: 0x1234_5678_9abc_def0_1122_3344_5566_7788u128,
        content: b("Test insight for JSON compatibility"),
        situation: bs(&["json", "compatibility"]),
        base_importance: 750_000,
        importance: 750_000,
        created_at: 1_754_042_400_000, // 2025-08-01T10:00:00Z
        importance_modified_at: 1_754_042_400_000,
        daily_access_counts: vec![],
    }
}

#[test]
fn test_insight_creation() {
    let content = b("Test insight content");
    let situation = bs(&["testing", "unit tests"]);
    let importance: u64 = 700_000;

    let insight = Insight::new(content.clone(), situation.clone(), importance);

    assert_eq!(insight.content, content);
    assert_eq!(insight.situation, situation);
    assert_eq!(insight.base_importance, importance);
    assert_eq!(insight.importance, importance);
    assert!(insight.uuid != 0);
}

#[test]
fn models_test_reinforcement() {
    let mut insight = Insight::new(b("Test"), bs(&["test"]), 600_000);
    let now = insight.created_at;

    // upvote: 0.6 * 1.5 == 0.9
    insight.apply_reinforcement(true, now);
    assert_eq!(insight.importance, 900_000);

    // downvote: 0.9 * 0.5 == 0.45
    insight.apply_reinforcement(false, now);
    assert_eq!(insight.importance, 450_000);

    // importance caps at 1.0
    let mut high_insight = Insight::new(b("High importance"), bs(&["important"]), 800_000);
    let hn = high_insight.created_at;
    high_insight.apply_reinforcement(true, hn);
    assert_eq!(high_insight.importance, 1_000_000);
}

#[test]
fn test_days_calculation() {
    let insight = Insight::new(b("Test"), bs(&["test"]), 500_000);
    let now = hippo::models::now_in_range();

    // a just-created insight is less than a thousandth of a day old
    assert!(insight.days_since_created(now) < 1_000);
    assert!(insight.days_since_importance_modified(now) < 1_000);
}

#[test]
fn test_record_access_same_day_increments() {
    let mut insight = fixed_insight();
    insight.record_access(5);
    insight.record_access(5);
    assert_eq!(insight.daily_access_counts, vec![(5, 2)]);
    insight.record_access(7);
    assert_eq!(insight.daily_access_counts, vec![(5, 2), (7, 1)]);
}

#[test]
fn test_record_access_evicts_oldest() {
    let mut insight = fixed_insight();
    for day in 0..91u32 {
        insight.record_access(day);
    }
    assert_eq!(insight.daily_access_counts.len(), 90);
    assert_eq!(insight.daily_access_counts[0], (1, 1));
    assert_eq!(insight.daily_access_counts[89], (90, 1));
}

#[test]
fn test_frequency_empty_history_is_zero() {
    let insight = fixed_insight();
    assert_eq!(insight.calculate_frequency(10, 30), 0);
}

#[test]
fn test_frequency_outside_window_is_zero() {
    let mut insight = fixed_insight();
    insight.record_access(1);
    insight.record_access(2);
    // window of 30 days ending at day 100 starts at day 71
    assert_eq!(insight.calculate_frequency(100, 30), 0);
}

#[test]
fn test_frequency_ignores_days_after_window_end() {
    let mut insight = fixed_insight();
    insight.daily_access_counts = vec![(5, 1), (100, 3)];
    // at day 10 with a 30-day window, only the day-5 access counts:
    // 1 access over 1 spanned day
    assert_eq!(insight.calculate_frequency(10, 30), 1_000_000);
}

#[test]
fn test_frequency_exact_value() {
    let mut insight = fixed_insight();
    insight.record_access(5);
    insight.record_access(5);
    insight.record_access(7);
    // three accesses over days 5..=7: 3 / 3 accesses per day
    assert_eq!(insight.calculate_frequency(10, 30), 1_000_000);
    assert_eq!(insight.calculate_frequency_default(10), 1_000_000);
}

#[test]
fn test_recency_exact_values() {
    let mut insight = fixed_insight();
    insight.record_access(10);
    // same day: full score
    assert_eq!(insight.calculate_recency_score_default(10), SCALE);
    // one idle day: one retention step
    assert_eq!(
        insight.calculate_recency_score_default(11),
        hippo::constants::RECENCY_DAY_FACTOR
    );
    // no history: zero
    let bare = fixed_insight();
    assert_eq!(bare.calculate_recency_score_default(10), 0);
}

#[test]
fn test_importance_decay_one_day() {
    let insight = fixed_insight();
    let one_day_later = insight.importance_modified_at + 86_400_000;
    // one decay step: 0.75 * 0.9 == 0.675
    assert_eq!(insight.compute_current_importance(one_day_later), 675_000);
    // no time passed: unchanged
    assert_eq!(
        insight.compute_current_importance(insight.importance_modified_at),
        750_000
    );
}

#[test]
fn test_json_compatibility() {
    let insight = fixed_insight();
    let bytes = encode_insight(&insight);
    let text = String::from_utf8(bytes.clone()).unwrap();

    assert!(text.contains("\"uuid\""));
    assert!(text.contains("\"content\""));
    assert!(text.contains("\"situation\""));
    assert!(text.contains("\"base_importance\""));
    assert!(text.contains("\"importance\""));
    assert!(text.contains("\"created_at\""));
    assert!(text.contains("\"importance_modified_at\""));
    assert!(text.contains("\"daily_access_counts\""));
    assert!(text.contains("2025-08-01T10:00:00.000Z"));

    let back = parse_insight(&bytes).unwrap();
    assert_eq!(back, insight);
}

#[test]
fn test_codec_round_trip_with_escapes_and_history() {
    let mut insight = fixed_insight();
    insight.content = b("line one\nquote \" and backslash \\ end");
    insight.situation = bs(&["tag \"x\"", ""]);
    insight.daily_access_counts = vec![(0, 1), (3, 7), (90, 2_000_000_000)];
    let bytes = encode_insight(&insight);
    let back = parse_insight(&bytes).unwrap();
    assert_eq!(back, insight);
}

#[test]
fn test_codec_rejects_corrupt_record() {
    assert!(parse_insight(&b("not a record")).is_none());
    assert!(parse_insight(&b("")).is_none());
    let mut bytes = encode_insight(&fixed_insight());
    bytes.pop();
    assert!(parse_insight(&bytes).is_none());
}

#[test]
fn test_metadata_round_trip() {
    let fresh = HippoMetadata {
        active_day_counter: 0,
        last_calendar_date_used: None,
    };
    let fresh_bytes = encode_metadata(&fresh);
    assert_eq!(parse_metadata(&fresh_bytes).unwrap(), fresh);

    let used = HippoMetadata {
        active_day_counter: 41,
        last_calendar_date_used: Some(CivilDate { year: 2026, month: 2, day: 28 }),
    };
    let used_bytes = encode_metadata(&used);
    assert_eq!(parse_metadata(&used_bytes).unwrap(), used);

    let (defaulted, backup) = load_metadata(Some(&b("garbage")));
    assert_eq!(defaulted.active_day_counter, 0);
    assert!(backup);
}

#[test]
fn test_metadata_active_day() {
    let mut meta = HippoMetadata {
        active_day_counter: 0,
        last_calendar_date_used: None,
    };
    let today = CivilDate { year: 2026, month: 3, day: 14 };

    let mut updated = false;
    let day1 = meta.get_current_active_day(today, &mut updated);
    assert_eq!(day1, 1);
    assert!(updated);

    let day1_again = meta.get_current_active_day(today, &mut updated);
    assert_eq!(day1_again, 1);
    assert!(!updated);

    let tomorrow = CivilDate { year: 2026, month: 3, day: 15 };
    let day2 = meta.get_current_active_day(tomorrow, &mut updated);
    assert_eq!(day2, 2);
    assert!(updated);
}

#[test]
fn test_storage_creation() {
    let store = Store::new();
    assert!(store.get_all_insights().is_empty());
}

#[test]
fn test_store_and_retrieve_insight() {
    let mut store = Store::new();
    let insight = Insight::new(b("Test insight"), bs(&["test"]), 700_000);
    let id = insight.uuid;

    store.store_insight(insight.clone());

    let retrieved = store.get_insight(id);
    assert!(retrieved.is_some());
    assert_eq!(retrieved.unwrap(), &insight);
}

#[test]
fn test_update_insight() {
    let mut store = Store::new();
    let mut insight = Insight::new(b("Original content"), bs(&["test"]), 700_000);
    let id = insight.uuid;

    store.store_insight(insight.clone());

    insight.content = b("Updated content");
    assert!(store.update_insight(insight.clone()).is_ok());

    let retrieved = store.get_insight(id).unwrap();
    assert_eq!(retrieved.content, b("Updated content"));
}

#[test]
fn test_update_nonexistent_insight() {
    let mut store = Store::new();
    let insight = Insight::new(b("Test"), bs(&["test"]), 700_000);
    let result = store.update_insight(insight.clone());
    assert_eq!(
        result,
        Err(StorageError::InsightNotFound { id: insight.uuid })
    );
}

#[test]
fn test_get_all_insights() {
    let mut store = Store::new();
    let insight1 = Insight::new(b("First"), bs(&["test"]), 600_000);
    let insight2 = Insight::new(b("Second"), bs(&["test"]), 700_000);

    store.store_insight(insight1.clone());
    store.store_insight(insight2.clone());

    let all_insights = store.get_all_insights();
    assert_eq!(all_insights.len(), 2);

    let ids: Vec<u128> = all_insights.iter().map(|i| i.uuid).collect();
    assert!(ids.contains(&insight1.uuid));
    assert!(ids.contains(&insight2.uuid));
}

#[test]
fn storage_test_reinforcement() {
    let mut store = Store::new();
    let insight = Insight::new(b("Test insight"), bs(&["test"]), 600_000);
    let id = insight.uuid;
    let now = insight.created_at;

    store.store_insight(insight);

    let written = store.apply_reinforcement(&vec![id], &vec![], now);
    assert_eq!(written.len(), 1);
    assert_eq!(store.get_insight(id).unwrap().importance, 900_000);

    store.apply_reinforcement(&vec![], &vec![id], now);
    assert_eq!(store.get_insight(id).unwrap().importance, 450_000);

    // unknown identifiers are silently skipped
    let none_written = store.apply_reinforcement(&vec![9999], &vec![], now);
    assert!(none_written.is_empty());
}

#[test]
fn test_storage_integration() {
    let mut store = Store::new();
    let insight1 = Insight::new(
        b("Rust provides memory safety without garbage collection"),
        bs(&["rust", "memory safety"]),
        800_000,
    );
    let insight2 = Insight::new(
        b("FastEmbed-rs offers significant startup performance improvements"),
        bs(&["fastembed", "performance"]),
        700_000,
    );
    let now = insight1.created_at.max(insight2.created_at);

    store.store_insight(insight1.clone());
    store.store_insight(insight2.clone());

    assert_eq!(store.get_all_insights().len(), 2);

    let retrieved1 = store.get_insight(insight1.uuid);
    assert!(retrieved1.is_some());
    assert_eq!(retrieved1.unwrap().content, insight1.content);

    store.apply_reinforcement(&vec![insight1.uuid], &vec![insight2.uuid], now);

    // 0.8 * 1.5 capped at 1.0; 0.7 * 0.5 == 0.35
    assert_eq!(store.get_insight(insight1.uuid).unwrap().importance, 1_000_000);
    assert_eq!(store.get_insight(insight2.uuid).unwrap().importance, 350_000);
}

#[test]
fn storage_test_file_persistence() {
    let insight = Insight::new(b("Persistent insight"), bs(&["persistence"]), 800_000);
    let id = insight.uuid;

    // first store instance writes the record bytes
    let records = {
        let mut store = Store::new();
        store.store_insight(insight.clone());
        store
            .get_all_insights()
            .iter()
            .map(encode_insight)
            .collect::<Vec<_>>()
    };

    // a fresh instance over the same records sees the same insight
    let store = Store::load_from_records(&records);
    let retrieved = store.get_insight(id);
    assert!(retrieved.is_some());
    assert_eq!(retrieved.unwrap(), &insight);
}

#[test]
fn integration_test_test_file_persistence() {
    let insight = Insight::new(b("Persistent test insight"), bs(&["persistence"]), 600_000);
    let other = Insight::new(b("Another"), bs(&["more"]), 400_000);

    let records = vec![encode_insight(&insight), encode_insight(&other), b("corrupt")];

    // loading skips the corrupt record and keeps the rest
    let store = Store::load_from_records(&records);
    assert_eq!(store.get_all_insights().len(), 2);
    assert_eq!(store.get_insight(insight.uuid).unwrap(), &insight);
    assert_eq!(store.get_insight(other.uuid).unwrap(), &other);
}

#[test]
fn test_error_handling() {
    let mut store = Store::new();

    assert!(store.get_insight(123456789).is_none());

    let fake_insight = Insight::new(b("Non-existent"), bs(&["fake"]), 500_000);
    assert!(store.update_insight(fake_insight).is_err());
}

#[test]
fn test_modify_insight() {
    let mut store = Store::new();
    let insight = Insight::new(b("Before"), bs(&["old"]), 500_000);
    let id = insight.uuid;
    let now = insight.created_at;
    store.store_insight(insight);

    // out-of-range importance is rejected before anything changes
    let bad = ModifyInsightParams {
        uuid: id,
        content: None,
        situation: None,
        importance: Some(2_000_000),
        reinforce: ReinforcementType::Unchanged,
    };
    assert_eq!(store.modify_insight(bad, now), Err(StorageError::InvalidImportance));
    assert_eq!(store.get_insight(id).unwrap().content, b("Before"));

    // unknown identifiers are rejected
    let missing = ModifyInsightParams {
        uuid: 42,
        content: None,
        situation: None,
        importance: None,
        reinforce: ReinforcementType::Unchanged,
    };
    assert_eq!(
        store.modify_insight(missing, now),
        Err(StorageError::InsightNotFound { id: 42 })
    );

    // edits and an upvote apply together: 0.6 * 1.5 == 0.9
    let good = ModifyInsightParams {
        uuid: id,
        content: Some(b("After")),
        situation: Some(bs(&["new"])),
        importance: Some(600_000),
        reinforce: ReinforcementType::Upvote,
    };
    let updated = store.modify_insight(good, now).unwrap();
    assert_eq!(updated.content, b("After"));
    assert_eq!(updated.base_importance, 600_000);
    assert_eq!(updated.importance, 900_000);
    assert_eq!(store.get_insight(id).unwrap(), &updated);
}

#[test]
fn test_record_insight_access_through_store() {
    let mut store = Store::new();
    let insight = Insight::new(b("Accessed"), bs(&["log"]), 500_000);
    let id = insight.uuid;
    store.store_insight(insight);

    let first = store.record_insight_access(id, 3).unwrap();
    assert_eq!(first.daily_access_counts, vec![(3, 1)]);
    let second = store.record_insight_access(id, 3).unwrap();
    assert_eq!(second.daily_access_counts, vec![(3, 2)]);

    assert!(store.record_insight_access(777, 3).is_none());
}

#[test]
fn test_search_engine_basic() {
    // an empty candidate set yields an empty result, not an error
    let insights: Vec<Insight> = vec![];
    let scores: Vec<i64> = vec![];
    let results = search(
        &b("test query"),
        &insights,
        &scores,
        1,
        0,
        1_000_000,
        &Vec::new(),
        10,
        0,
        0,
    );
    assert!(results.is_empty());
}

#[test]
fn test_search_parameters() {
    let now = 1_754_042_400_000i64;
    let mut insights = vec![
        Insight::new(b("First insight"), bs(&["first"]), 800_000),
        Insight::new(b("Second insight"), bs(&["second"]), 700_000),
        Insight::new(b("Third insight"), bs(&["third"]), 600_000),
    ];
    for i in insights.iter_mut() {
        i.record_access(1);
    }
    let scores: Vec<i64> = vec![900_000, 900_000, 900_000];

    // a situation filter that matches nothing yields an empty result
    let results = search(
        &b("test"),
        &insights,
        &scores,
        1,
        0,
        1_000_000,
        &bs(&["nonexistent"]),
        10,
        0,
        now,
    );
    assert!(results.is_empty());
}

#[test]
fn test_search_ranking_and_gates() {
    let day = 1u32;
    let mk = |content: &str, tags: &[&str], importance: u64| {
        let mut i = Insight::new(b(content), bs(tags), importance);
        i.record_access(day);
        i
    };
    let insights = vec![
        mk("Rust is a systems programming language", &["programming", "rust"], 700_000),
        mk("Python is great for data science", &["programming", "python"], 700_000),
        mk("Machine learning models need training data", &["machine learning", "data"], 700_000),
    ];
    let now = insights[0].created_at;
    // semantic similarity of each insight to the query, from the embedding
    // capability: the two language insights score high, the third low
    let scores: Vec<i64> = vec![620_000, 560_000, 210_000];

    let results = search(
        &b("programming languages"),
        &insights,
        &scores,
        day,
        0,
        1_000_000,
        &Vec::new(),
        10,
        0,
        now,
    );

    // the unrelated insight fails the semantic gate
    assert_eq!(results.len(), 2);
    assert!(results[0].insight.content.starts_with(b"Rust"));
    assert!(results[1].insight.content.starts_with(b"Python"));
    for w in results.windows(2) {
        assert!(w[0].relevance >= w[1].relevance);
    }

    // a situation filter keeps only tag matches, case-insensitively
    let filtered = search(
        &b("programming languages"),
        &insights,
        &scores,
        day,
        0,
        1_000_000,
        &bs(&["RUST"]),
        10,
        0,
        now,
    );
    assert_eq!(filtered.len(), 1);
    assert!(filtered[0].insight.content.starts_with(b"Rust"));

    // an offset beyond the ranking yields an empty list
    let beyond = search(
        &b("programming languages"),
        &insights,
        &scores,
        day,
        0,
        1_000_000,
        &Vec::new(),
        10,
        50,
        now,
    );
    assert!(beyond.is_empty());
}

#[test]
fn test_search_empty_query_keeps_all() {
    let day = 1u32;
    let mut a = Insight::new(b("alpha"), bs(&["one"]), 900_000);
    let mut b2 = Insight::new(b("beta"), bs(&["two"]), 100_000);
    a.record_access(day);
    b2.record_access(day);
    let now = a.created_at.max(b2.created_at);
    let insights = vec![a, b2];
    // scores are ignored for an empty query
    let scores: Vec<i64> = vec![0, 0];

    let results = search(
        &Vec::new(),
        &insights,
        &scores,
        day,
        0,
        1_000_000,
        &Vec::new(),
        10,
        0,
        now,
    );
    assert_eq!(results.len(), 2);
    assert!(results[0].relevance >= results[1].relevance);
    assert!(results[0].insight.content.starts_with(b"alpha"));
}

#[test]
fn test_today_date_components() {
    let (year, month, day) = hippo::sys::today_ymd();
    assert!(year >= 1970);
    assert!((1..=12).contains(&month));
    assert!((1..=31).contains(&day));
}
