use spacewise_core::path::FsPath;
use spacewise_core::scanner::{
    build_entry, CollectingSink, EntryMetadata, ScanOptions, ScanProgressSink, ScanStats, Scanner,
};

/// One node of an in-memory file tree. Directories list their children by
/// index, so a junction back to an ancestor is a child index pointing up.
struct Node {
    name: &'static str,
    id: u128,
    is_dir: bool,
    is_symlink: bool,
    len: u64,
    children: Vec<usize>,
}

fn meta(n: &Node) -> EntryMetadata {
    EntryMetadata {
        is_dir: n.is_dir,
        is_symlink: n.is_symlink,
        link_count: Some(1),
        len: n.len,
        created: None,
        modified: None,
        accessed: None,
        filesystem_id: Some(format!("{}", n.id)),
        hidden_attribute: None,
    }
}

fn child(p: &FsPath, name: &str) -> FsPath {
    let mut parts = p.parts.clone();
    parts.push(name.to_string());
    FsPath::new(p.root.clone(), parts)
}

fn same(a: &FsPath, b: &FsPath) -> bool {
    a.root == b.root && a.parts == b.parts
}

/// Walks the tree depth-first from node 0 without following symlinks, as the
/// scanner's caller does, and lets the scan decide everything else.
fn scan(tree: &[Node], options: &ScanOptions, sink: &mut CollectingSink) -> ScanStats {
    let run_owner = Scanner::new();
    let mut run = run_owner.start(options);
    let mut stack: Vec<(usize, FsPath)> = vec![(0, options.root.clone())];
    let mut steps = 0;
    let lookup = |path: &FsPath, walked: &[(usize, FsPath)]| -> usize {
        walked.iter().find(|(_, q)| same(q, path)).map(|(i, _)| *i).unwrap()
    };
    let mut walked: Vec<(usize, FsPath)> = Vec::new();
    while let Some((i, path)) = stack.pop() {
        steps += 1;
        assert!(steps < 10_000, "scan must terminate");
        let node = &tree[i];
        if node.is_dir && !node.is_symlink && !run.enter_directory(Some(node.id)) {
            continue;
        }
        walked.push((i, path.clone()));
        if run.push_path(path.clone()) {
            flush(&mut run, tree, &walked, &lookup, sink);
        }
        if node.is_dir && !node.is_symlink {
            for &c in node.children.iter().rev() {
                stack.push((c, child(&path, tree[c].name)));
            }
        }
    }
    if run.has_pending() {
        flush(&mut run, tree, &walked, &lookup, sink);
    }
    let stats = run.finish(0);
    sink.on_complete(&stats);
    stats
}

fn flush(
    run: &mut spacewise_core::scanner::ScanRun,
    tree: &[Node],
    walked: &[(usize, FsPath)],
    lookup: &dyn Fn(&FsPath, &[(usize, FsPath)]) -> usize,
    sink: &mut CollectingSink,
) {
    let batch = run.take_batch();
    let entries: Vec<_> = batch.into_iter().map(|p| {
        let m = meta(&tree[lookup(&p, walked)]);
        build_entry(run.scan_id(), p, m).expect("a random source")
    }).collect();
    run.record_batch(&entries);
    sink.on_entries(entries);
}

/// A directory whose own entry reports a length, as on most Unix
/// filesystems: that length is not counted as stored bytes.
fn dir(name: &'static str, id: u128, children: Vec<usize>) -> Node {
    Node { name, id, is_dir: true, is_symlink: false, len: 4096, children }
}

fn file(name: &'static str, id: u128, len: u64) -> Node {
    Node { name, id, is_dir: false, is_symlink: false, len, children: vec![] }
}

fn root() -> FsPath {
    FsPath::new("/".to_string(), vec!["tmp".to_string(), "scan".to_string()])
}

#[test]
fn scans_flat_directory() {
    let tree = vec![dir("scan", 1, vec![1, 2]), file("a.txt", 2, 5), file("b.txt", 3, 6)];
    let mut sink = CollectingSink::new();
    let stats = scan(&tree, &ScanOptions::new(root()).unwrap(), &mut sink);

    assert_eq!(stats.files_scanned, 2);
    assert_eq!(stats.total_logical_size, 11);
    assert_eq!(sink.entries.len(), 3); // root dir + 2 files
}

#[test]
fn scans_nested_directories() {
    let tree = vec![dir("scan", 1, vec![1]), dir("sub", 2, vec![2]), dir("inner", 3, vec![3]), file("f.bin", 4, 100)];
    let mut sink = CollectingSink::new();
    let stats = scan(&tree, &ScanOptions::new(root()).unwrap(), &mut sink);

    assert_eq!(stats.files_scanned, 1);
    assert_eq!(stats.dirs_scanned, 3); // root + sub + sub/inner
}

#[test]
fn does_not_follow_symlink_loop() {
    // real/loop is a symlink back to the root (never followed), and
    // real/junction is a directory whose identity is the root's own.
    let tree = vec![
        dir("scan", 1, vec![1]),
        dir("real", 2, vec![2, 3]),
        Node { name: "loop", id: 9, is_dir: false, is_symlink: true, len: 0, children: vec![0] },
        dir("junction", 1, vec![1]),
    ];
    let mut sink = CollectingSink::new();
    let stats = scan(&tree, &ScanOptions::new(root()).unwrap(), &mut sink);
    assert_eq!(stats.dirs_scanned, 2);
    assert_eq!(stats.files_scanned, 1);
    assert_eq!(sink.entries.len(), 3);
}

#[test]
fn batches_are_handed_on_when_full_and_at_the_end() {
    let tree = vec![dir("scan", 1, vec![1, 2, 3, 4]), file("a", 2, 1), file("b", 3, 2), file("c", 4, 3), file("d", 5, 4)];
    let mut options = ScanOptions::with_scan_id(root(), 77);
    options.batch_size = 2;
    let mut sink = CollectingSink::new();
    let stats = scan(&tree, &options, &mut sink);
    assert_eq!(sink.entries.len(), 5);
    assert!(sink.entries.iter().all(|e| e.scan_id == 77));
    assert_eq!(stats.total_logical_size, 10);
    assert_eq!(sink.stats.files_scanned, 4);
}

#[test]
fn a_directory_is_entered_once_per_identity() {
    let run = Scanner::new().start(&ScanOptions::with_scan_id(root(), 1));
    let mut run = run;
    assert!(run.enter_directory(Some(5)));
    assert!(!run.enter_directory(Some(5)));
    assert!(run.enter_directory(Some(6)));
    assert!(run.enter_directory(None));
    assert!(run.enter_directory(None));
}

#[test]
fn entries_record_parent_extension_and_hidden_flag() {
    let path = FsPath::new("/".to_string(), vec!["home".to_string(), ".Config.TOML".to_string()]);
    let mut m = meta(&file("x", 3, 12));
    m.link_count = Some(2);
    let e = build_entry(8, path, m).unwrap();
    assert_eq!(e.scan_id, 8);
    assert_eq!(e.extension.as_deref(), Some("toml"));
    assert!(e.is_hidden);
    assert!(e.is_hardlink);
    assert!(!e.is_system);
    assert_eq!(e.logical_size, 12);
    assert_eq!(e.allocated_size, 12);
    let parent = e.parent.unwrap();
    assert_eq!(parent.parts, vec!["home".to_string()]);

    let plain = build_entry(8, FsPath::new("/".to_string(), vec!["README".to_string()]), meta(&file("y", 4, 0))).unwrap();
    assert_eq!(plain.extension, None);
    assert!(!plain.is_hidden);
    let dotfile = build_entry(8, FsPath::new("/".to_string(), vec![".bashrc".to_string()]), meta(&file("z", 5, 0))).unwrap();
    assert_eq!(dotfile.extension, None);
    assert!(dotfile.is_hidden);
}

#[test]
fn errors_are_counted() {
    let mut run = Scanner::new().start(&ScanOptions::with_scan_id(root(), 1));
    run.record_error();
    run.record_error();
    let s = run.finish(15);
    assert_eq!(s.errors, 2);
    assert_eq!(s.duration_ms, 15);
    assert_eq!(ScanStats::default().files_scanned, 0);
}
