use spacewise_core::aggregate::{aggregate_directories, fold_into, AggregateMap};
use spacewise_core::model::{FileEntry, Timestamp};
use spacewise_core::path::FsPath;

fn p(s: &str) -> FsPath {
    let parts: Vec<String> = s.split('/').filter(|x| !x.is_empty()).map(|x| x.to_string()).collect();
    FsPath::new("/".to_string(), parts)
}

fn file(path: &str, parent: &str, size: u64) -> FileEntry {
    FileEntry {
        id: 1,
        scan_id: 7,
        path: p(path),
        parent: Some(p(parent)),
        logical_size: size,
        allocated_size: size,
        extension: Some("bin".to_string()),
        created_at: None,
        modified_at: None,
        accessed_at: None,
        is_dir: false,
        is_symlink: false,
        is_hardlink: false,
        is_hidden: false,
        is_system: false,
        filesystem_id: None,
    }
}

fn total(m: &AggregateMap, path: &str) -> u64 {
    m.get(&p(path)).expect("directory has an aggregate").total_size
}

fn files(m: &AggregateMap, path: &str) -> u64 {
    m.get(&p(path)).expect("directory has an aggregate").file_count
}

#[test]
fn rolls_up_nested_sizes_to_every_ancestor() {
    let entries = vec![file("/root/a/b/f1.bin", "/root/a/b", 100), file("/root/a/f2.bin", "/root/a", 50)];
    let agg = aggregate_directories(&p("/root"), &entries);

    assert_eq!(total(&agg, "/root/a/b"), 100);
    assert_eq!(total(&agg, "/root/a"), 150);
    assert_eq!(total(&agg, "/root"), 150);
    // file_count is recursive, like total_size.
    assert_eq!(files(&agg, "/root/a"), 2);
    assert_eq!(files(&agg, "/root/a/b"), 1);
}

#[test]
fn folding_multiple_batches_matches_folding_all_at_once() {
    let batch1 = vec![file("/root/a/f1.bin", "/root/a", 10)];
    let batch2 = vec![file("/root/a/f2.bin", "/root/a", 20)];

    let mut streamed = AggregateMap::new();
    fold_into(&mut streamed, &p("/root"), &batch1);
    fold_into(&mut streamed, &p("/root"), &batch2);

    let all: Vec<FileEntry> = batch1.iter().cloned().chain(batch2.iter().cloned()).collect();
    let all_at_once = aggregate_directories(&p("/root"), &all);

    assert_eq!(total(&streamed, "/root/a"), total(&all_at_once, "/root/a"));
    assert_eq!(files(&streamed, "/root/a"), files(&all_at_once, "/root/a"));
}

#[test]
fn nothing_above_the_scan_root_is_credited() {
    let entries = vec![file("/root/a/f.bin", "/root/a", 40)];
    let agg = aggregate_directories(&p("/root"), &entries);
    assert!(agg.get(&p("/")).is_none());
    assert_eq!(agg.len(), 2);
}

#[test]
fn directories_count_toward_dir_count_not_file_count() {
    let mut d = file("/root/a/sub", "/root/a", 0);
    d.is_dir = true;
    let entries = vec![d, file("/root/a/sub/x.bin", "/root/a/sub", 5)];
    let agg = aggregate_directories(&p("/root"), &entries);
    let a = agg.get(&p("/root/a")).unwrap();
    assert_eq!(a.dir_count, 1);
    assert_eq!(a.file_count, 1);
    assert_eq!(a.total_size, 5);
}

#[test]
fn latest_modification_rolls_up() {
    let mut e1 = file("/root/a/f1.bin", "/root/a", 1);
    e1.modified_at = Some(Timestamp { secs: 100, nanos: 0 });
    let mut e2 = file("/root/b/f2.bin", "/root/b", 1);
    e2.modified_at = Some(Timestamp { secs: 300, nanos: 5 });
    let agg = aggregate_directories(&p("/root"), &[e1, e2]);
    let root = agg.get(&p("/root")).unwrap();
    assert_eq!(root.latest_modified, Some(Timestamp { secs: 300, nanos: 5 }));
    let a = agg.get(&p("/root/a")).unwrap();
    assert_eq!(a.latest_modified, Some(Timestamp { secs: 100, nanos: 0 }));
    assert_eq!(agg.to_vec().len(), 3);
}
