use spacewise_core::history::{HistoryEngine, TOP_CONTRIBUTORS};
use spacewise_core::model::{CategoryTotal, HistoricalSnapshot, Timestamp};

fn cat(id: &str, size: u64) -> CategoryTotal {
    CategoryTotal { category_id: id.to_string(), total_size: size, item_count: 1 }
}

fn snapshot(id: u128, secs: i64, total: u64, cats: Vec<CategoryTotal>) -> HistoricalSnapshot {
    HistoricalSnapshot { id, scan_id: id + 100, taken_at: Timestamp { secs, nanos: 0 }, total_size: total, category_totals: cats }
}

#[test]
fn growth_summary_is_none_with_only_one_snapshot() {
    let engine = HistoryEngine::new();
    let scan_id = 42;
    let only = engine.record_snapshot(scan_id, 1000, vec![]).expect("a clock and a random source");
    assert_eq!(only.scan_id, 42);
    assert_eq!(only.total_size, 1000);
    assert!(engine.growth_summary(&[only], 30).is_none());
}

#[test]
fn growth_summary_ranks_biggest_category_deltas_first() {
    let day = 86_400;
    let a = snapshot(1, 1_700_000_000 - 10 * day, 1_000, vec![cat("docker-data", 100)]);
    let b = snapshot(2, 1_700_000_000, 5_000, vec![cat("docker-data", 4_100)]);

    let summary = HistoryEngine::new().growth_summary(&[a, b], 30).unwrap();
    assert_eq!(summary.growth_bytes, 4_000);
    assert_eq!(summary.top_contributors[0].category_id, "docker-data");
    assert_eq!(summary.top_contributors[0].delta_bytes, 4_000);
}

#[test]
fn growth_summary_is_none_without_history() {
    assert!(HistoryEngine::new().growth_summary(&[], 30).is_none());
}

#[test]
fn shrinking_and_new_categories_are_ranked_and_capped() {
    let first = snapshot(1, 0, 10_000, vec![cat("a", 500), cat("b", 100), cat("c", 900)]);
    let last = snapshot(
        2,
        100,
        9_000,
        vec![cat("a", 700), cat("b", 100), cat("c", 100), cat("d", 50), cat("e", 200), cat("f", 200), cat("g", 1)],
    );
    let s = HistoryEngine::new().growth_summary(&[first, last], 7).unwrap();
    assert_eq!(s.growth_bytes, -1_000);
    assert_eq!(s.period_days, 7);
    assert_eq!(s.top_contributors.len(), TOP_CONTRIBUTORS);
    let ids: Vec<&str> = s.top_contributors.iter().map(|d| d.category_id.as_str()).collect();
    let deltas: Vec<i64> = s.top_contributors.iter().map(|d| d.delta_bytes).collect();
    // Equal deltas keep the newest snapshot's order (e before f).
    assert_eq!(ids, vec!["a", "e", "f", "d", "g"]);
    assert_eq!(deltas, vec![200, 200, 200, 50, 1]);
}

#[test]
fn the_window_is_compared_end_to_end() {
    let s1 = snapshot(1, 0, 100, vec![cat("x", 10)]);
    let s2 = snapshot(2, 10, 999_999, vec![cat("x", 1)]);
    let s3 = snapshot(3, 20, 150, vec![cat("x", 40)]);
    let s = HistoryEngine::new().growth_summary(&[s1, s2, s3], 30).unwrap();
    assert_eq!(s.growth_bytes, 50);
    assert_eq!(s.top_contributors[0].delta_bytes, 30);
}

#[test]
fn snapshots_get_fresh_version_4_ids_and_the_current_time() {
    let engine = HistoryEngine::new();
    let before = std::time::SystemTime::now().duration_since(std::time::UNIX_EPOCH).unwrap().as_secs() as i64;
    let a = engine.record_snapshot(1, 10, vec![cat("x", 1)]).unwrap();
    let b = engine.record_snapshot(1, 10, vec![]).unwrap();
    let after = std::time::SystemTime::now().duration_since(std::time::UNIX_EPOCH).unwrap().as_secs() as i64;
    assert_ne!(a.id, b.id);
    assert_eq!(uuid::Uuid::from_u128(a.id).get_version_num(), 4);
    assert_eq!(uuid::Uuid::from_u128(a.id).get_variant(), uuid::Variant::RFC4122);
    assert!(before <= a.taken_at.secs && a.taken_at.secs <= after);
    assert!(a.taken_at.nanos < 1_000_000_000);
    assert_eq!(a.category_totals.len(), 1);
}
