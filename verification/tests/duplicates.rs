use spacewise_core::duplicates::{full_hash, partial_hash, ContentHasher, DuplicateEngine, HashedPath, PARTIAL_HASH_BYTES};
use spacewise_core::model::{DuplicateGroup, FileEntry};
use spacewise_core::path::FsPath;

fn p(s: &str) -> FsPath {
    let parts: Vec<String> = s.split('/').filter(|x| !x.is_empty()).map(|x| x.to_string()).collect();
    FsPath::new("/".to_string(), parts)
}

fn file_entry(path: FsPath, size: u64) -> FileEntry {
    FileEntry {
        id: 3,
        scan_id: 4,
        path,
        parent: None,
        logical_size: size,
        allocated_size: size,
        extension: None,
        created_at: None,
        modified_at: None,
        accessed_at: None,
        is_dir: false,
        is_symlink: false,
        is_hardlink: false,
        is_hidden: false,
        is_system: false,
        filesystem_id: None,
    }
}

/// The three stages, with file contents held in memory in place of a disk.
fn find_duplicates(entries: &[FileEntry], contents: &[(FsPath, Vec<u8>)]) -> Vec<DuplicateGroup> {
    let read = |path: &FsPath| -> Option<Vec<u8>> {
        contents.iter().find(|(q, _)| q.root == path.root && q.parts == path.parts).map(|(_, c)| c.clone())
    };
    let engine = DuplicateEngine::new();
    let mut out = Vec::new();
    for group in engine.size_candidates(entries) {
        let partial: Vec<HashedPath> = group
            .paths
            .iter()
            .map(|path| HashedPath {
                path: path.clone(),
                hash: read(path).map(|c| partial_hash(&c[..c.len().min(PARTIAL_HASH_BYTES)])),
            })
            .collect();
        for candidates in engine.group_by_hash(&partial) {
            let full: Vec<HashedPath> = candidates
                .paths
                .iter()
                .map(|path| HashedPath { path: path.clone(), hash: read(path).map(|c| full_hash(&c)) })
                .collect();
            out.extend(engine.confirm_groups(group.size, &full).unwrap());
        }
    }
    out
}

fn has(paths: &[FsPath], q: &FsPath) -> bool {
    paths.iter().any(|x| x.root == q.root && x.parts == q.parts)
}

#[test]
fn finds_true_duplicates_and_ignores_same_size_different_content() {
    let a = p("/tmp/d/a.bin");
    let b = p("/tmp/d/b.bin");
    let c = p("/tmp/d/c.bin"); // same size as a/b, different content
    let contents = vec![
        (a.clone(), b"identical content here".to_vec()),
        (b.clone(), b"identical content here".to_vec()),
        (c.clone(), b"totally different text!".to_vec()),
    ];
    let entries = vec![file_entry(a.clone(), 23), file_entry(b.clone(), 23), file_entry(c.clone(), 24)];
    let groups = find_duplicates(&entries, &contents);

    assert_eq!(groups.len(), 1);
    assert_eq!(groups[0].paths.len(), 2);
    assert!(has(&groups[0].paths, &a));
    assert!(has(&groups[0].paths, &b));
}

#[test]
fn unique_sizes_never_produce_a_group() {
    let a = p("/tmp/d/a.bin");
    let contents = vec![(a.clone(), b"only file".to_vec())];
    let entries = vec![file_entry(a, 9)];
    assert!(find_duplicates(&entries, &contents).is_empty());
}

#[test]
fn same_size_different_content_is_not_a_duplicate() {
    let a = p("/x/a");
    let b = p("/x/b");
    let contents = vec![(a.clone(), b"aaaa".to_vec()), (b.clone(), b"bbbb".to_vec())];
    let entries = vec![file_entry(a, 4), file_entry(b, 4)];
    assert!(find_duplicates(&entries, &contents).is_empty());
}

#[test]
fn size_candidates_skip_empty_files_and_directories() {
    let mut dir = file_entry(p("/x/d"), 7);
    dir.is_dir = true;
    let entries = vec![
        file_entry(p("/x/e1"), 0),
        file_entry(p("/x/e2"), 0),
        dir,
        file_entry(p("/x/f"), 7),
        file_entry(p("/x/g"), 7),
        file_entry(p("/x/h"), 8),
    ];
    let groups = DuplicateEngine::new().size_candidates(&entries);
    assert_eq!(groups.len(), 1);
    assert_eq!(groups[0].size, 7);
    assert_eq!(groups[0].paths.len(), 2);
    assert!(has(&groups[0].paths, &p("/x/f")));
    assert!(has(&groups[0].paths, &p("/x/g")));
}

#[test]
fn size_groups_come_in_order_of_first_appearance() {
    let entries = vec![
        file_entry(p("/x/a"), 9),
        file_entry(p("/x/b"), 5),
        file_entry(p("/x/c"), 5),
        file_entry(p("/x/d"), 9),
    ];
    let groups = DuplicateEngine::new().size_candidates(&entries);
    assert_eq!(groups.len(), 2);
    assert_eq!(groups[0].size, 9);
    assert_eq!(groups[1].size, 5);
}

#[test]
fn unreadable_files_take_no_part_in_hash_groups() {
    let engine = DuplicateEngine::new();
    let hashed = vec![
        HashedPath { path: p("/x/a"), hash: None },
        HashedPath { path: p("/x/b"), hash: None },
        HashedPath { path: p("/x/c"), hash: Some("h1".to_string()) },
        HashedPath { path: p("/x/d"), hash: Some("h1".to_string()) },
        HashedPath { path: p("/x/e"), hash: Some("h2".to_string()) },
    ];
    let groups = engine.group_by_hash(&hashed);
    assert_eq!(groups.len(), 1);
    assert_eq!(groups[0].hash, "h1");
    assert_eq!(groups[0].paths.len(), 2);

    let confirmed = engine.confirm_groups(12, &hashed).unwrap();
    assert_eq!(confirmed.len(), 1);
    assert_eq!(confirmed[0].size, 12);
    assert_eq!(confirmed[0].content_hash, "h1");
}

#[test]
fn partial_hash_is_the_blake3_hex_digest() {
    // BLAKE3 of the empty input.
    assert_eq!(partial_hash(b""), "af1349b9f5f9a1a6a0404dea36dcc9499bcb25c9adc112b7cc9a93cae41f3262");
    let h = partial_hash(b"abc");
    assert_eq!(h.len(), 64);
    assert_ne!(h, partial_hash(b"abd"));
    assert_eq!(h, partial_hash(b"abc"));
}

#[test]
fn file_names_are_never_a_duplicate_signal() {
    // The same contents under other names form the same groups.
    let named = |a: &str, b: &str, c: &str| {
        let (pa, pb, pc) = (p(a), p(b), p(c));
        let contents = vec![(pa.clone(), b"same".to_vec()), (pb.clone(), b"same".to_vec()), (pc.clone(), b"diff".to_vec())];
        let entries = vec![file_entry(pa, 4), file_entry(pb, 4), file_entry(pc, 4)];
        find_duplicates(&entries, &contents)
    };
    let g1 = named("/x/a.txt", "/y/b.txt", "/z/a.txt");
    let g2 = named("/q/one", "/r/two", "/s/three");
    assert_eq!(g1.len(), 1);
    assert_eq!(g2.len(), 1);
    assert_eq!(g1[0].content_hash, g2[0].content_hash);
    assert_eq!(g1[0].paths.len(), 2);
    assert_eq!(g2[0].paths.len(), 2);
    // Same name, different content: not duplicates.
    assert!(!has(&g1[0].paths, &p("/z/a.txt")));
}

#[test]
fn full_hash_streams_to_the_same_digest() {
    let content: Vec<u8> = (0..200_000u32).map(|i| (i % 251) as u8).collect();
    let whole = full_hash(&content);
    assert_eq!(whole.len(), 64);
    let mut h = ContentHasher::new();
    for chunk in content.chunks(7_919) {
        h.update(chunk);
    }
    assert_eq!(h.finalize_hex(), whole);
    assert_eq!(ContentHasher::new().finalize_hex(), full_hash(b""));
    assert_eq!(full_hash(b""), "af1349b9f5f9a1a6a0404dea36dcc9499bcb25c9adc112b7cc9a93cae41f3262");
    // The partial hash covers only the leading bytes.
    assert_ne!(partial_hash(&content[..PARTIAL_HASH_BYTES]), whole);
}
