use spacewise_core::model::{DirectoryAggregate, InstalledApp, MatchConfidence};
use spacewise_core::path::FsPath;
use spacewise_core::uninstall::{associate_apps_checked, associate_apps_with_storage, normalize};

fn app(name: &str) -> InstalledApp {
    InstalledApp { name: name.into(), publisher: None, install_location: None, estimated_size_bytes: None, uninstall_command: None }
}

/// A Windows path: `C:\` followed by its components.
fn win(path: &str) -> FsPath {
    let rest = path.strip_prefix("C:\\").expect("a C: path");
    FsPath::new("C:\\".to_string(), rest.split('\\').map(|s| s.to_string()).collect())
}

fn agg(path: FsPath, size: u64) -> DirectoryAggregate {
    DirectoryAggregate { path, total_size: size, allocated_size: size, file_count: 1, dir_count: 0, latest_modified: None }
}

#[test]
fn exact_name_match_gets_high_confidence() {
    let apps = vec![app("Slack")];
    let aggregates = vec![agg(win(r"C:\Users\x\AppData\Roaming\Slack"), 500)];
    let assoc = associate_apps_with_storage(&apps, &aggregates);
    assert_eq!(assoc.len(), 1);
    assert_eq!(assoc[0].confidence, MatchConfidence::Exact);
    assert_eq!(assoc[0].associated_size, 500);
}

#[test]
fn unrelated_app_gets_no_association() {
    let apps = vec![app("Totally Unrelated App")];
    let aggregates = vec![agg(win(r"C:\Users\x\AppData\Roaming\Slack"), 500)];
    assert!(associate_apps_with_storage(&apps, &aggregates).is_empty());
}

#[test]
fn substring_match_is_partial_and_sizes_add_up() {
    let apps = vec![app("Visual Studio Code")];
    let aggregates = vec![
        agg(win(r"C:\Users\x\AppData\Roaming\Code"), 100),
        agg(win(r"C:\Users\x\AppData\Local\Visual-Studio-Code-Cache"), 40),
        agg(win(r"C:\Users\x\Documents"), 9_000),
    ];
    let assoc = associate_apps_with_storage(&apps, &aggregates);
    assert_eq!(assoc.len(), 1);
    assert_eq!(assoc[0].confidence, MatchConfidence::Partial);
    assert_eq!(assoc[0].associated_paths.len(), 2);
    assert_eq!(assoc[0].associated_size, 140);
}

#[test]
fn one_exact_match_makes_the_association_exact() {
    let apps = vec![app("Zoom")];
    let aggregates = vec![agg(win(r"C:\Apps\ZoomCache"), 1), agg(win(r"C:\Apps\zoom"), 2)];
    let assoc = associate_apps_with_storage(&apps, &aggregates);
    assert_eq!(assoc[0].confidence, MatchConfidence::Exact);
    assert_eq!(assoc[0].associated_size, 3);
}

#[test]
fn an_app_name_without_letters_or_digits_matches_nothing() {
    let apps = vec![app("---")];
    let aggregates = vec![agg(win(r"C:\Apps\anything"), 1)];
    assert!(associate_apps_with_storage(&apps, &aggregates).is_empty());
}

#[test]
fn normalize_keeps_lowercased_letters_and_digits() {
    assert_eq!(normalize("Slack Technologies, Inc."), "slacktechnologiesinc");
    assert_eq!(normalize("7-Zip 23.01"), "7zip2301");
    assert_eq!(normalize("ÉDITEUR"), "éditeur");
    assert_eq!(normalize(""), "");
}

#[test]
fn checked_association_refuses_sizes_that_overflow() {
    let apps = vec![app("Big")];
    let aggregates = vec![agg(win(r"C:\big"), u64::MAX), agg(win(r"C:\Big"), 1)];
    assert!(associate_apps_checked(&apps, &aggregates).is_none());
    let fine = vec![agg(win(r"C:\big"), 7)];
    let assoc = associate_apps_checked(&apps, &fine).unwrap();
    assert_eq!(assoc[0].associated_size, 7);
}

#[test]
fn normalizing_an_ascii_name_twice_changes_nothing() {
    for s in ["Slack Technologies, Inc.", "7-Zip 23.01", "---", "ABCxyz_09", ""] {
        let once = normalize(s);
        assert!(once.chars().all(|c| c.is_ascii_lowercase() || c.is_ascii_digit()));
        assert_eq!(normalize(&once), once);
    }
}
