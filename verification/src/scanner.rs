//! The decisions of a recursive filesystem scan. The caller walks the tree and
//! stats each path; this module decides which directories to descend into
//! (cycle protection), when a batch of paths is due to be stat-ed and handed
//! to the sink, what each scanned entry records, and the running totals.
//!
//! Cycle protection: every visited directory's platform file identity
//! (device and inode on Unix, volume and file index on Windows) is recorded,
//! and a directory whose identity was already seen is not entered again, so a
//! symlink loop or a junction pointing back at an ancestor can neither recurse
//! forever nor count its size twice.

use vstd::prelude::*;
use std::collections::HashSet;
use crate::model::{FileEntry, Timestamp};
use crate::path::{FsPath, file_name_of, parent_of};
use crate::platform::{extension_of, stem_of};
use crate::runtime::new_id;
use crate::text::{ascii_lower, ascii_lower_of, chars_of, push_char};

verus! {

/// What a scan of one tree is asked to do.
#[derive(Debug, Clone)]
pub struct ScanOptions {
    pub root: FsPath,
    pub batch_size: usize,
    /// Identity every entry of this scan carries. Callers that persist results
    /// must use the same identity there.
    pub scan_id: u128,
}

/// The number of paths stat-ed and handed on together, unless asked otherwise.
pub const DEFAULT_BATCH_SIZE: usize = 1024;

impl ScanOptions {
    /// Options for scanning `root` under a fresh scan identity; `None` when no
    /// identity could be had.
    pub fn new(root: FsPath) -> (r: Option<ScanOptions>)
        ensures
            r matches Some(o) ==> o.root == root && o.batch_size == DEFAULT_BATCH_SIZE,
    {
        match new_id() {
            Some(scan_id) => Some(ScanOptions { root, batch_size: DEFAULT_BATCH_SIZE, scan_id }),
            None => None,
        }
    }

    /// Options for scanning `root` under the given scan identity.
    pub fn with_scan_id(root: FsPath, scan_id: u128) -> (o: ScanOptions)
        ensures
            o.root == root,
            o.batch_size == DEFAULT_BATCH_SIZE,
            o.scan_id == scan_id,
    {
        ScanOptions { root, batch_size: DEFAULT_BATCH_SIZE, scan_id }
    }
}

/// Running totals of a scan.
#[derive(Debug, Clone, Copy)]
pub struct ScanStats {
    pub files_scanned: u64,
    pub dirs_scanned: u64,
    pub total_logical_size: u64,
    pub errors: u64,
    pub duration_ms: u64,
}

impl ScanStats {
    /// All totals zero.
    pub fn zero() -> (s: ScanStats)
        ensures
            s.files_scanned == 0,
            s.dirs_scanned == 0,
            s.total_logical_size == 0,
            s.errors == 0,
            s.duration_ms == 0,
    {
        ScanStats { files_scanned: 0, dirs_scanned: 0, total_logical_size: 0, errors: 0, duration_ms: 0 }
    }
}

impl Default for ScanStats {
    fn default() -> (s: ScanStats)
        ensures
            s.files_scanned == 0,
            s.dirs_scanned == 0,
            s.total_logical_size == 0,
            s.errors == 0,
            s.duration_ms == 0,
    {
        ScanStats::zero()
    }
}

/// Receives a scan's entries batch by batch, then its final totals.
pub trait ScanProgressSink {
    fn on_entries(&mut self, entries: Vec<FileEntry>);

    fn on_complete(&mut self, stats: &ScanStats);
}

/// A sink that keeps everything in memory: for tests, small scans and tools.
pub struct CollectingSink {
    pub entries: Vec<FileEntry>,
    pub stats: ScanStats,
}

impl CollectingSink {
    /// An empty sink.
    pub fn new() -> (s: CollectingSink)
        ensures
            s.entries@.len() == 0,
            s.stats == ScanStats::zero_spec(),
    {
        CollectingSink { entries: Vec::new(), stats: ScanStats::zero() }
    }
}

impl ScanStats {
    pub open spec fn zero_spec() -> ScanStats {
        ScanStats { files_scanned: 0, dirs_scanned: 0, total_logical_size: 0, errors: 0, duration_ms: 0 }
    }
}

impl ScanProgressSink for CollectingSink {
    fn on_entries(&mut self, entries: Vec<FileEntry>)
        ensures
            final(self).entries@ == old(self).entries@ + entries@,
            final(self).stats == old(self).stats,
    {
        let mut entries = entries;
        self.entries.append(&mut entries);
    }

    fn on_complete(&mut self, stats: &ScanStats)
        ensures
            final(self).stats == *stats,
            final(self).entries@ == old(self).entries@,
    {
        self.stats = *stats;
    }
}

/// What the scanner learns of one path from the filesystem (without
/// following symlinks).
#[derive(Debug, Clone)]
pub struct EntryMetadata {
    pub is_dir: bool,
    pub is_symlink: bool,
    /// The hard-link count where the platform reports one.
    pub link_count: Option<u64>,
    pub len: u64,
    pub created: Option<Timestamp>,
    pub modified: Option<Timestamp>,
    pub accessed: Option<Timestamp>,
    /// The file's identity, rendered as text, when it could be obtained.
    pub filesystem_id: Option<String>,
    /// The platform's "hidden" attribute, where the platform has one.
    pub hidden_attribute: Option<bool>,
}

/// Whether an entry is hidden: by the platform's attribute where there is
/// one, else by a file name that starts with `.`.
pub open spec fn hidden(path: FsPath, meta: EntryMetadata) -> bool {
    match meta.hidden_attribute {
        Some(h) => h,
        None => match file_name_of(path@) {
            Some(n) => n.len() > 0 && n[0] == '.',
            None => false,
        },
    }
}

/// The entry the scanner records for `path`.
pub open spec fn entry_for(scan_id: u128, path: FsPath, meta: EntryMetadata, e: FileEntry) -> bool {
    &&& e.scan_id == scan_id
    &&& e.path@ == path@
    &&& match e.parent {
        Some(p) => parent_of(path@) == Some(p@),
        None => parent_of(path@) is None,
    }
    &&& e.logical_size == meta.len
    &&& e.allocated_size == meta.len
    &&& e.extension matches Some(x) ==> (file_name_of(path@) matches Some(n) && extension_of(n)
        matches Some(ext) && x@ == ascii_lower(ext))
    &&& e.extension is None ==> (file_name_of(path@) matches Some(n) ==> extension_of(n) is None)
    &&& e.created_at == meta.created
    &&& e.modified_at == meta.modified
    &&& e.accessed_at == meta.accessed
    &&& e.is_dir == meta.is_dir
    &&& e.is_symlink == meta.is_symlink
    &&& e.is_hardlink == (meta.link_count matches Some(n) && n > 1)
    &&& e.is_hidden == hidden(path, meta)
    &&& !e.is_system
    &&& e.filesystem_id == meta.filesystem_id
}

/// The lowercased extension of a path's file name.
fn extension_lower(path: &FsPath) -> (r: Option<String>)
    ensures
        match r {
            Some(x) => file_name_of(path@) matches Some(n) && extension_of(n) matches Some(ext)
                && x@ == ascii_lower(ext),
            None => file_name_of(path@) matches Some(n) ==> extension_of(n) is None,
        },
{
    let name = match path.file_name() {
        Some(n) => n,
        None => return None,
    };
    let chars = chars_of(name.as_str());
    let mut k = chars.len();
    let ghost whole = chars@;
    proof {
        assert(whole.take(k as int) =~= whole);
    }
    while k > 0 && chars[k - 1] != '.'
        invariant
            k <= chars@.len(),
            whole == chars@,
            crate::platform::last_dot(whole) == crate::platform::last_dot(whole.take(k as int)),
        decreases k,
    {
        proof {
            assert(whole.take(k as int).drop_last() =~= whole.take(k - 1));
        }
        k = k - 1;
    }
    if k <= 1 {
        proof {
            if k == 1 {
                assert(whole.take(1).last() == '.');
            }
        }
        return None;
    }
    proof {
        assert(whole.take(k as int).last() == '.');
        assert(crate::platform::last_dot(whole) == Some(k - 1));
    }
    let mut out = String::new();
    let mut i = k;
    while i < chars.len()
        invariant
            k <= i <= chars@.len(),
            out@ == ascii_lower(whole.skip(k as int)).take(i - k),
            whole == chars@,
        decreases chars@.len() - i,
    {
        push_char(&mut out, ascii_lower_of(chars[i]));
        proof {
            assert(out@ =~= ascii_lower(whole.skip(k as int)).take(i + 1 - k));
        }
        i = i + 1;
    }
    proof {
        assert(out@ =~= ascii_lower(whole.skip(k as int)));
    }
    Some(out)
}

/// Whether a file name starts with `.`.
fn dot_name(path: &FsPath) -> (r: bool)
    ensures
        r == match file_name_of(path@) {
            Some(n) => n.len() > 0 && n[0] == '.',
            None => false,
        },
{
    match path.file_name() {
        Some(n) => {
            let s = n.as_str();
            s.unicode_len() > 0 && s.get_char(0) == '.'
        },
        None => false,
    }
}

/// Builds the entry the scanner records for `path` from its metadata; `None`
/// when no identifier could be had for it.
pub fn build_entry(scan_id: u128, path: FsPath, meta: EntryMetadata) -> (r: Option<FileEntry>)
    ensures
        r matches Some(e) ==> entry_for(scan_id, path, meta, e),
{
    let id = match new_id() {
        Some(id) => id,
        None => return None,
    };
    let parent = path.parent();
    let extension = extension_lower(&path);
    let is_hidden = match meta.hidden_attribute {
        Some(h) => h,
        None => dot_name(&path),
    };
    let is_hardlink = match meta.link_count {
        Some(n) => n > 1,
        None => false,
    };
    Some(FileEntry {
        id,
        scan_id,
        parent,
        extension,
        is_dir: meta.is_dir,
        is_symlink: meta.is_symlink,
        is_hardlink,
        is_hidden,
        is_system: false,
        filesystem_id: meta.filesystem_id,
        logical_size: meta.len,
        allocated_size: meta.len,
        created_at: meta.created,
        modified_at: meta.modified,
        accessed_at: meta.accessed,
        path,
    })
}

/// The directories, files and bytes a batch of entries adds to the totals.
pub open spec fn batch_dirs(es: Seq<FileEntry>) -> nat
    decreases es.len(),
{
    if es.len() == 0 { 0 } else { batch_dirs(es.drop_last()) + if es.last().is_dir { 1nat } else { 0nat } }
}

pub open spec fn batch_files(es: Seq<FileEntry>) -> nat
    decreases es.len(),
{
    if es.len() == 0 { 0 } else { batch_files(es.drop_last()) + if es.last().is_dir { 0nat } else { 1nat } }
}

pub open spec fn batch_bytes(es: Seq<FileEntry>) -> nat
    decreases es.len(),
{
    if es.len() == 0 {
        0
    } else {
        batch_bytes(es.drop_last()) + if es.last().is_dir { 0nat } else { es.last().logical_size as nat }
    }
}

/// The scan under way: the directory identities seen so far, the paths
/// waiting to be stat-ed, and the totals.
pub struct ScanRun {
    scan_id: u128,
    batch_size: usize,
    pending: Vec<FsPath>,
    visited: HashSet<u128>,
    stats: ScanStats,
}

impl ScanRun {
    /// The identity of the scan.
    pub closed spec fn id(&self) -> u128 {
        self.scan_id
    }

    /// The identity every entry of this scan carries.
    pub fn scan_id(&self) -> (r: u128)
        ensures
            r == self.id(),
    {
        self.scan_id
    }

    /// The directory identities entered so far.
    pub closed spec fn visited_ids(&self) -> Set<u128> {
        self.visited@
    }

    /// The paths waiting to be stat-ed.
    pub closed spec fn pending_paths(&self) -> Seq<FsPath> {
        self.pending@
    }

    /// The running totals.
    pub closed spec fn totals(&self) -> ScanStats {
        self.stats
    }

    /// How many paths make a batch (at least one).
    pub closed spec fn batch(&self) -> nat {
        self.batch_size as nat
    }

    /// Decides whether the walk descends into a directory, given its identity
    /// (`None` when it could not be obtained): a directory seen before is not
    /// entered again; one without an identity is always entered.
    pub fn enter_directory(&mut self, id: Option<u128>) -> (r: bool)
        ensures
            match id {
                Some(i) => {
                    &&& r == !old(self).visited_ids().contains(i)
                    &&& final(self).visited_ids() == old(self).visited_ids().insert(i)
                },
                None => r && final(self).visited_ids() == old(self).visited_ids(),
            },
            final(self).pending_paths() == old(self).pending_paths(),
            final(self).totals() == old(self).totals(),
            final(self).batch() == old(self).batch(),
            final(self).id() == old(self).id(),
    {
        broadcast use vstd::std_specs::hash::group_hash_axioms;
        match id {
            Some(i) => self.visited.insert(i),
            None => true,
        }
    }

    /// How many paths the walk could not read so far.
    pub fn error_count(&self) -> (r: u64)
        ensures
            r == self.totals().errors,
    {
        self.stats.errors
    }

    /// Whether a stat-ed batch can be added to the totals without any of them
    /// overflowing.
    pub fn batch_fits(&self, entries: &[FileEntry]) -> (r: bool)
        ensures
            r == (self.totals().dirs_scanned + batch_dirs(entries@) <= u64::MAX
                && self.totals().files_scanned + batch_files(entries@) <= u64::MAX
                && self.totals().total_logical_size + batch_bytes(entries@) <= u64::MAX),
    {
        let mut dirs: u64 = self.stats.dirs_scanned;
        let mut files: u64 = self.stats.files_scanned;
        let mut bytes: u64 = self.stats.total_logical_size;
        let mut i: usize = 0;
        while i < entries.len()
            invariant
                i <= entries@.len(),
                dirs == self.stats.dirs_scanned + batch_dirs(entries@.take(i as int)),
                files == self.stats.files_scanned + batch_files(entries@.take(i as int)),
                bytes == self.stats.total_logical_size + batch_bytes(entries@.take(i as int)),
            decreases entries@.len() - i,
        {
            proof {
                let es = entries@;
                assert(es.take(i + 1).drop_last() =~= es.take(i as int));
                lemma_batch_prefix(es, i + 1);
            }
            let e = &entries[i];
            if e.is_dir {
                if dirs == u64::MAX {
                    proof {
                        lemma_batch_prefix(entries@, i + 1);
                    }
                    return false;
                }
                dirs = dirs + 1;
            } else {
                if files == u64::MAX {
                    proof {
                        lemma_batch_prefix(entries@, i + 1);
                    }
                    return false;
                }
                files = files + 1;
                if e.logical_size > u64::MAX - bytes {
                    proof {
                        lemma_batch_prefix(entries@, i + 1);
                    }
                    return false;
                }
                bytes = bytes + e.logical_size;
            }
            i = i + 1;
        }
        proof {
            assert(entries@.take(i as int) =~= entries@);
        }
        true
    }

    /// Counts one path the walk could not read.
    pub fn record_error(&mut self)
        requires
            old(self).totals().errors < u64::MAX,
        ensures
            final(self).totals() == (ScanStats { errors: (old(self).totals().errors + 1) as u64, ..old(self).totals() }),
            final(self).visited_ids() == old(self).visited_ids(),
            final(self).pending_paths() == old(self).pending_paths(),
            final(self).batch() == old(self).batch(),
            final(self).id() == old(self).id(),
    {
        self.stats = ScanStats { errors: self.stats.errors + 1, ..self.stats };
    }

    /// Queues a path to be stat-ed; returns whether a full batch is now due.
    pub fn push_path(&mut self, path: FsPath) -> (due: bool)
        ensures
            final(self).pending_paths() == old(self).pending_paths().push(path),
            due == (final(self).pending_paths().len() >= final(self).batch()),
            final(self).visited_ids() == old(self).visited_ids(),
            final(self).totals() == old(self).totals(),
            final(self).batch() == old(self).batch(),
            final(self).id() == old(self).id(),
    {
        self.pending.push(path);
        self.pending.len() >= self.batch_size
    }

    /// Whether paths are waiting.
    pub fn has_pending(&self) -> (r: bool)
        ensures
            r == (self.pending_paths().len() > 0),
    {
        self.pending.len() > 0
    }

    /// Hands over the waiting paths, in order, leaving none.
    pub fn take_batch(&mut self) -> (batch: Vec<FsPath>)
        ensures
            batch@ == old(self).pending_paths(),
            final(self).pending_paths().len() == 0,
            final(self).visited_ids() == old(self).visited_ids(),
            final(self).totals() == old(self).totals(),
            final(self).batch() == old(self).batch(),
            final(self).id() == old(self).id(),
    {
        let mut batch: Vec<FsPath> = Vec::new();
        std::mem::swap(&mut batch, &mut self.pending);
        batch
    }

    /// Adds a stat-ed batch to the totals: each directory, each other entry,
    /// and the logical size of every entry that is not a directory (a
    /// directory's own length is not storage the user can reclaim).
    pub fn record_batch(&mut self, entries: &[FileEntry])
        requires
            old(self).totals().dirs_scanned + batch_dirs(entries@) <= u64::MAX,
            old(self).totals().files_scanned + batch_files(entries@) <= u64::MAX,
            old(self).totals().total_logical_size + batch_bytes(entries@) <= u64::MAX,
        ensures
            final(self).totals().dirs_scanned == old(self).totals().dirs_scanned + batch_dirs(entries@),
            final(self).totals().files_scanned == old(self).totals().files_scanned + batch_files(entries@),
            final(self).totals().total_logical_size == old(self).totals().total_logical_size
                + batch_bytes(entries@),
            final(self).totals().errors == old(self).totals().errors,
            final(self).totals().duration_ms == old(self).totals().duration_ms,
            final(self).visited_ids() == old(self).visited_ids(),
            final(self).pending_paths() == old(self).pending_paths(),
            final(self).batch() == old(self).batch(),
            final(self).id() == old(self).id(),
    {
        let ghost start = self.stats;
        let mut i: usize = 0;
        while i < entries.len()
            invariant
                i <= entries@.len(),
                start.dirs_scanned + batch_dirs(entries@) <= u64::MAX,
                start.files_scanned + batch_files(entries@) <= u64::MAX,
                start.total_logical_size + batch_bytes(entries@) <= u64::MAX,
                self.stats.dirs_scanned == start.dirs_scanned + batch_dirs(entries@.take(i as int)),
                self.stats.files_scanned == start.files_scanned + batch_files(entries@.take(i as int)),
                self.stats.total_logical_size == start.total_logical_size + batch_bytes(
                    entries@.take(i as int),
                ),
                self.stats.errors == start.errors,
                self.stats.duration_ms == start.duration_ms,
                self.visited@ == old(self).visited@,
                self.pending@ == old(self).pending@,
                self.batch_size == old(self).batch_size,
                self.scan_id == old(self).scan_id,
            decreases entries@.len() - i,
        {
            proof {
                let es = entries@;
                assert(es.take(i + 1).drop_last() =~= es.take(i as int));
                lemma_batch_prefix(es, i + 1);
            }
            let e = &entries[i];
            if e.is_dir {
                self.stats = ScanStats { dirs_scanned: self.stats.dirs_scanned + 1, ..self.stats };
            } else {
                self.stats = ScanStats {
                    files_scanned: self.stats.files_scanned + 1,
                    total_logical_size: self.stats.total_logical_size + e.logical_size,
                    ..self.stats
                };
            }
            i = i + 1;
        }
        proof {
            assert(entries@.take(i as int) =~= entries@);
        }
    }

    /// Ends the scan: the final totals, with the elapsed time.
    pub fn finish(&mut self, duration_ms: u64) -> (s: ScanStats)
        ensures
            s == (ScanStats { duration_ms, ..old(self).totals() }),
            final(self).totals() == s,
            final(self).visited_ids() == old(self).visited_ids(),
            final(self).pending_paths() == old(self).pending_paths(),
            final(self).id() == old(self).id(),
    {
        self.stats = ScanStats { duration_ms, ..self.stats };
        self.stats
    }
}

proof fn lemma_batch_prefix(es: Seq<FileEntry>, k: int)
    requires
        0 <= k <= es.len(),
    ensures
        batch_dirs(es.take(k)) <= batch_dirs(es),
        batch_files(es.take(k)) <= batch_files(es),
        batch_bytes(es.take(k)) <= batch_bytes(es),
    decreases es.len() - k,
{
    if k < es.len() {
        lemma_batch_prefix(es, k + 1);
        assert(es.take(k + 1).drop_last() =~= es.take(k));
    } else {
        assert(es.take(k) =~= es);
    }
}

/// Walks a tree: its decisions are made by the `ScanRun` it starts.
pub struct Scanner;

impl Scanner {
    pub fn new() -> (s: Scanner) {
        Scanner
    }

    /// Starts a scan: nothing visited, nothing waiting, all totals zero, and
    /// batches of `options.batch_size` paths (at least one).
    pub fn start(&self, options: &ScanOptions) -> (run: ScanRun)
        ensures
            run.id() == options.scan_id,
            run.visited_ids() == Set::<u128>::empty(),
            run.pending_paths().len() == 0,
            run.totals() == ScanStats::zero_spec(),
            run.batch() == if options.batch_size == 0 { 1 } else { options.batch_size as nat },
    {
        let batch_size = if options.batch_size == 0 { 1 } else { options.batch_size };
        ScanRun {
            scan_id: options.scan_id,
            batch_size,
            pending: Vec::new(),
            visited: HashSet::new(),
            stats: ScanStats::zero(),
        }
    }
}

} // verus!
