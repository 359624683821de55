use spacewise_core::classification::ClassificationEngine;
use spacewise_core::model::{DirectoryAggregate, SafetyLevel, Timestamp};
use spacewise_core::path::FsPath;
use spacewise_core::recommend::{human_size, RecommendationEngine};

fn p(s: &str) -> FsPath {
    let parts: Vec<String> = s.split('/').filter(|x| !x.is_empty()).map(|x| x.to_string()).collect();
    FsPath::new("/".to_string(), parts)
}

fn agg(path: &str, size: u64) -> DirectoryAggregate {
    DirectoryAggregate { path: p(path), total_size: size, allocated_size: size, file_count: 1, dir_count: 0, latest_modified: None }
}

#[test]
fn never_auto_delete_is_excluded_from_recommendations() {
    let classifier = ClassificationEngine::new();
    let classified = vec![(agg("/a/pagefile.sys", 1_000_000), "pagefile".to_string(), SafetyLevel::NeverAutoDelete)];
    let recs = RecommendationEngine::new().candidates(&classified, &classifier).unwrap();
    assert!(recs.is_empty());
}

#[test]
fn candidates_merge_one_category_and_keep_categories_apart() {
    let classifier = ClassificationEngine::new();
    let classified = vec![
        (agg("/p1/node_modules", 500_000_000), "node-modules".to_string(), SafetyLevel::Safe),
        (agg("/Downloads", 500_000_000), "downloads".to_string(), SafetyLevel::Review),
        (agg("/p2/node_modules", 20), "node-modules".to_string(), SafetyLevel::Safe),
        (agg("/swap", 9), "node-modules".to_string(), SafetyLevel::NeverAutoDelete),
    ];
    let recs = RecommendationEngine::new().candidates(&classified, &classifier).unwrap();
    assert_eq!(recs.len(), 2);
    assert_eq!(recs[0].category_id, "node-modules");
    assert_eq!(recs[0].display_name, "node-modules");
    assert_eq!(recs[0].paths.len(), 2);
    assert_eq!(recs[0].total_size, 500_000_020);
    assert_eq!(recs[0].safety, SafetyLevel::Safe);
    assert_eq!(recs[1].category_id, "downloads");
    assert_eq!(recs[1].safety, SafetyLevel::Review);
    assert_eq!(recs[1].total_size, 500_000_000);
}

#[test]
fn staleness_counts_whole_days_per_dated_directory() {
    let day: i64 = 86_400;
    let now = Timestamp { secs: 1_000 * day, nanos: 0 };
    let mut old = agg("/c/old", 1);
    old.latest_modified = Some(Timestamp { secs: 990 * day - 1, nanos: 0 });
    let mut future = agg("/c/future", 1);
    future.latest_modified = Some(Timestamp { secs: 1_001 * day, nanos: 0 });
    let undated = agg("/c/undated", 1);
    let mut other = agg("/o", 1);
    other.latest_modified = Some(Timestamp { secs: 0, nanos: 0 });
    let classified = vec![
        (old, "cache".to_string(), SafetyLevel::Safe),
        (future, "cache".to_string(), SafetyLevel::Safe),
        (undated, "cache".to_string(), SafetyLevel::Safe),
        (other, "other".to_string(), SafetyLevel::Safe),
    ];
    let days = RecommendationEngine::new().staleness_days(&classified, "cache", now);
    assert_eq!(days, vec![10, 0]);
}

#[test]
fn human_size_picks_the_largest_unit_and_one_decimal() {
    assert_eq!(human_size(0), "0.0 B");
    assert_eq!(human_size(500), "500.0 B");
    assert_eq!(human_size(1023), "1023.0 B");
    assert_eq!(human_size(1024), "1.0 KB");
    assert_eq!(human_size(1536), "1.5 KB");
    // 1.25 KB: a tie rounds to the even tenth.
    assert_eq!(human_size(1280), "1.2 KB");
    assert_eq!(human_size(1792), "1.8 KB");
    assert_eq!(human_size(5 * 1024 * 1024), "5.0 MB");
    assert_eq!(human_size(3 * 1024 * 1024 * 1024 + 512 * 1024 * 1024), "3.5 GB");
    assert_eq!(human_size(2 * 1024 * 1024 * 1024 * 1024), "2.0 TB");
    assert_eq!(human_size(2048 * 1024 * 1024 * 1024 * 1024), "2048.0 TB");
}

#[test]
fn human_size_shows_the_count_as_a_double_precision_value() {
    // Above 2^53 bytes the count is first rounded to a double: this one lands
    // exactly on a tie between two tenths and rounds to the even one.
    assert_eq!(human_size(109_951_437_655_506_945), "100000.2 TB");
    assert_eq!(human_size(u64::MAX), "16777216.0 TB");
    assert_eq!(human_size((1u64 << 53) + 1), "8192.0 TB");
}
