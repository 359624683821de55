use spacewise_core::classification::ClassificationEngine;
use spacewise_core::model::SafetyLevel;
use spacewise_core::path::FsPath;
use spacewise_core::safety::SafetyEngine;
use spacewise_core::status;

fn p(s: &str) -> FsPath {
    let parts: Vec<String> = s.split('/').filter(|x| !x.is_empty()).map(|x| x.to_string()).collect();
    FsPath::new("/".to_string(), parts)
}

#[test]
fn status_reports_version_and_phase() {
    let s = status();
    assert_eq!(s.version, "0.1.0");
    assert_eq!(s.phase, "phase-1-architecture");
}

#[test]
fn safety_names_round_trip_and_unknown_names_are_never_auto_delete() {
    for level in [SafetyLevel::Safe, SafetyLevel::Review, SafetyLevel::Advanced, SafetyLevel::NeverAutoDelete] {
        assert_eq!(SafetyLevel::from_str_or_never(level.as_str()), level);
    }
    assert_eq!(SafetyLevel::Safe.as_str(), "safe");
    assert_eq!(SafetyLevel::NeverAutoDelete.as_str(), "never_auto_delete");
    assert_eq!(SafetyLevel::from_str_or_never("SAFE"), SafetyLevel::NeverAutoDelete);
    assert_eq!(SafetyLevel::from_str_or_never(""), SafetyLevel::NeverAutoDelete);
}

#[test]
fn safety_engine_never_offers_unknown_paths() {
    assert_eq!(SafetyEngine::new().classify(&p("/home/u/.cache")), SafetyLevel::NeverAutoDelete);
}

#[test]
fn an_engine_without_rules_classifies_nothing() {
    let e = ClassificationEngine::new();
    assert!(e.classify(&p("/home/u/node_modules")).is_none());
    assert!(e.category_by_id("node-modules").is_none());
}

#[test]
fn paths_compare_by_components() {
    let a = p("/root/a/b");
    assert!(a.starts_with(&p("/root/a")));
    assert!(!a.starts_with(&p("/root/ab")));
    assert!(a.same_as(&p("/root/a/b/")));
    assert_eq!(a.file_name().map(|s| s.as_str()), Some("b"));
    assert!(a.parent().unwrap().same_as(&p("/root/a")));
    assert!(p("/").parent().is_none());
    assert_eq!(a.depth(), 3);
}
