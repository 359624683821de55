use spacewise_core::model::CategoryTotal;
use spacewise_core::session::{developer_storage, ScanSession, ScanStatus};

#[test]
fn only_one_scan_runs_at_a_time() {
    let mut s = ScanSession::new();
    assert_eq!(s.current_status(), ScanStatus::Idle);
    assert!(!s.is_active());
    assert!(s.begin_scan("/a".to_string()).is_ok());
    assert_eq!(s.current_status(), ScanStatus::Starting);
    assert!(s.is_active());
    assert_eq!(s.begin_scan("/b".to_string()), Err("a scan is already in progress".to_string()));
    assert_eq!(s.root.as_deref(), Some("/a"));
    s.scanning(99);
    assert_eq!(s.current_status(), ScanStatus::Scanning);
    assert_eq!(s.scan_id, Some(99));
    assert!(s.begin_scan("/b".to_string()).is_err());
    s.scan_ended(Some(ScanStatus::Completed));
    assert!(!s.is_active());
    assert!(s.begin_scan("/b".to_string()).is_ok());
    assert_eq!(s.root.as_deref(), Some("/b"));
    assert_eq!(s.scan_id, None);
}

#[test]
fn a_scan_can_only_be_cancelled_while_it_holds_a_handle() {
    let mut s = ScanSession::new();
    assert_eq!(s.cancel(), Err("no scan is currently running".to_string()));
    s.begin_scan("/a".to_string()).unwrap();
    assert!(s.cancel().is_ok());
    assert_eq!(s.current_status(), ScanStatus::Cancelling);
    assert!(s.is_active());
    s.scan_ended(None);
    assert_eq!(s.current_status(), ScanStatus::Failed);
    assert!(s.cancel().is_err());
}

#[test]
fn developer_storage_keeps_developer_categories_in_order() {
    let t = |id: &str, size: u64| CategoryTotal { category_id: id.to_string(), total_size: size, item_count: 1 };
    let kept = developer_storage(vec![t("downloads", 1), t("node-modules", 2), t("photos", 3), t("cocoapods", 4), t("docker-data", 5)]);
    let ids: Vec<&str> = kept.iter().map(|c| c.category_id.as_str()).collect();
    assert_eq!(ids, vec!["node-modules", "cocoapods", "docker-data"]);
    assert_eq!(kept[2].total_size, 5);
}
