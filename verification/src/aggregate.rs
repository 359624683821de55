//! Rolls up per-file storage entries into per-directory totals. Every file's
//! size is added to each of its ancestor directories, up to and including the
//! scan root, so a treemap or directory view can render totals at any depth
//! without re-walking the filesystem.
//!
//! `fold_into` is the streaming entry point: it folds one batch of entries at a
//! time into an existing aggregate map, so the caller never holds the full
//! entry list in memory.

use vstd::prelude::*;
use crate::model::{DirectoryAggregate, FileEntry, Timestamp, latest_of, later_of};
use crate::path::{FsPath, PathSeq, is_prefix_path};

verus! {

/// Totals of one directory, as numbers.
pub struct AggView {
    pub total: nat,
    pub allocated: nat,
    pub files: nat,
    pub dirs: nat,
    pub latest: Option<Timestamp>,
}

/// What aggregation reads of a scanned entry.
pub struct EntryView {
    pub path: PathSeq,
    pub parent: Option<PathSeq>,
    pub logical: nat,
    pub allocated: nat,
    pub modified: Option<Timestamp>,
    pub is_dir: bool,
}

pub open spec fn entry_view(e: FileEntry) -> EntryView {
    EntryView {
        path: e.path@,
        parent: match e.parent {
            Some(p) => Some(p@),
            None => None,
        },
        logical: e.logical_size as nat,
        allocated: e.allocated_size as nat,
        modified: e.modified_at,
        is_dir: e.is_dir,
    }
}

pub open spec fn entries_view(es: Seq<FileEntry>) -> Seq<EntryView> {
    Seq::new(es.len(), |i: int| entry_view(es[i]))
}

pub open spec fn empty_agg() -> AggView {
    AggView { total: 0, allocated: 0, files: 0, dirs: 0, latest: None }
}

/// The map with an (empty) aggregate for `p` if it had none.
pub open spec fn with_dir(m: Map<PathSeq, AggView>, p: PathSeq) -> Map<PathSeq, AggView> {
    if m.contains_key(p) { m } else { m.insert(p, empty_agg()) }
}

/// One file's contribution to one directory's totals.
pub open spec fn add_file(a: AggView, e: EntryView) -> AggView {
    AggView {
        total: a.total + e.logical,
        allocated: a.allocated + e.allocated,
        files: a.files + 1,
        dirs: a.dirs,
        latest: latest_of(a.latest, e.modified),
    }
}

/// Adds a file to `dir` and to each ancestor of `dir`, stopping after the scan
/// root (or at the top of the tree when the root is not among them).
pub open spec fn roll_up(
    m: Map<PathSeq, AggView>,
    root: PathSeq,
    dir: PathSeq,
    e: EntryView,
) -> Map<PathSeq, AggView>
    decreases dir.len(),
{
    let m1 = with_dir(m, dir);
    let m2 = m1.insert(dir, add_file(m1[dir], e));
    if dir =~~= root || dir.len() <= 1 {
        m2
    } else {
        roll_up(m2, root, dir.drop_last(), e)
    }
}

/// Folds one entry: a directory gets an aggregate of its own and counts once
/// in its parent's directory count; a file is rolled up from its parent.
pub open spec fn fold_entry(m: Map<PathSeq, AggView>, root: PathSeq, e: EntryView) -> Map<
    PathSeq,
    AggView,
> {
    if e.is_dir {
        let m1 = with_dir(m, e.path);
        match e.parent {
            Some(p) => {
                let m2 = with_dir(m1, p);
                m2.insert(p, AggView { dirs: m2[p].dirs + 1, ..m2[p] })
            },
            None => m1,
        }
    } else {
        match e.parent {
            Some(p) => roll_up(m, root, p, e),
            None => m,
        }
    }
}

/// Folds a sequence of entries, in order.
pub open spec fn fold_entries(m: Map<PathSeq, AggView>, root: PathSeq, es: Seq<EntryView>) -> Map<
    PathSeq,
    AggView,
>
    decreases es.len(),
{
    if es.len() == 0 {
        m
    } else {
        fold_entry(fold_entries(m, root, es.drop_last()), root, es.last())
    }
}

/// Every counter of every aggregate fits in a `u64`.
pub open spec fn bounded(m: Map<PathSeq, AggView>) -> bool {
    forall|k: PathSeq|
        #![trigger m[k]]
        m.contains_key(k) ==> {
            &&& m[k].total <= u64::MAX
            &&& m[k].allocated <= u64::MAX
            &&& m[k].files <= u64::MAX
            &&& m[k].dirs <= u64::MAX
        }
}

/// `a` is covered by `b` and no counter of `a` exceeds the one in `b`.
pub open spec fn grows_into(a: Map<PathSeq, AggView>, b: Map<PathSeq, AggView>) -> bool {
    forall|k: PathSeq|
        #![trigger a[k]]
        a.contains_key(k) ==> {
            &&& b.contains_key(k)
            &&& a[k].total <= b[k].total
            &&& a[k].allocated <= b[k].allocated
            &&& a[k].files <= b[k].files
            &&& a[k].dirs <= b[k].dirs
        }
}

proof fn lemma_grows_trans(a: Map<PathSeq, AggView>, b: Map<PathSeq, AggView>, c: Map<PathSeq, AggView>)
    requires
        grows_into(a, b),
        grows_into(b, c),
    ensures
        grows_into(a, c),
{
    assert forall|k: PathSeq| #![trigger a[k]] a.contains_key(k) implies {
        &&& c.contains_key(k)
        &&& a[k].total <= c[k].total
        &&& a[k].allocated <= c[k].allocated
        &&& a[k].files <= c[k].files
        &&& a[k].dirs <= c[k].dirs
    } by {
        assert(b.contains_key(k));
        assert(b[k].total <= c[k].total);
    }
}

proof fn lemma_grows_bounded(a: Map<PathSeq, AggView>, b: Map<PathSeq, AggView>)
    requires
        grows_into(a, b),
        bounded(b),
    ensures
        bounded(a),
{
    assert forall|k: PathSeq| #![trigger a[k]] a.contains_key(k) implies {
        &&& a[k].total <= u64::MAX
        &&& a[k].allocated <= u64::MAX
        &&& a[k].files <= u64::MAX
        &&& a[k].dirs <= u64::MAX
    } by {
        assert(b.contains_key(k));
        assert(b[k].total <= u64::MAX);
    }
}

proof fn lemma_roll_up_grows(m: Map<PathSeq, AggView>, root: PathSeq, dir: PathSeq, e: EntryView)
    ensures
        grows_into(m, roll_up(m, root, dir, e)),
        grows_into(with_dir(m, dir).insert(dir, add_file(with_dir(m, dir)[dir], e)), roll_up(m, root, dir, e)),
    decreases dir.len(),
{
    let m1 = with_dir(m, dir);
    let m2 = m1.insert(dir, add_file(m1[dir], e));
    assert(grows_into(m, m2));
    if dir =~~= root || dir.len() <= 1 {
        assert(grows_into(m2, m2));
    } else {
        lemma_roll_up_grows(m2, root, dir.drop_last(), e);
        lemma_grows_trans(m, m2, roll_up(m, root, dir, e));
    }
}

proof fn lemma_fold_entry_grows(m: Map<PathSeq, AggView>, root: PathSeq, e: EntryView)
    ensures
        grows_into(m, fold_entry(m, root, e)),
{
    if e.is_dir {
        let m1 = with_dir(m, e.path);
        assert(grows_into(m, m1));
        match e.parent {
            Some(p) => {
                let m2 = with_dir(m1, p);
                assert(grows_into(m1, m2));
                lemma_grows_trans(m, m1, m2);
                assert(grows_into(m2, fold_entry(m, root, e)));
                lemma_grows_trans(m, m2, fold_entry(m, root, e));
            },
            None => {},
        }
    } else {
        match e.parent {
            Some(p) => lemma_roll_up_grows(m, root, p, e),
            None => {},
        }
    }
}

/// Folding never loses a directory and never lowers a counter.
pub proof fn lemma_fold_grows(m: Map<PathSeq, AggView>, root: PathSeq, es: Seq<EntryView>)
    ensures
        grows_into(m, fold_entries(m, root, es)),
    decreases es.len(),
{
    if es.len() == 0 {
    } else {
        lemma_fold_grows(m, root, es.drop_last());
        lemma_fold_entry_grows(fold_entries(m, root, es.drop_last()), root, es.last());
        lemma_grows_trans(m, fold_entries(m, root, es.drop_last()), fold_entries(m, root, es));
    }
}

/// Folding two batches one after the other gives exactly the map that folding
/// both batches at once gives.
pub proof fn lemma_fold_batches(
    m: Map<PathSeq, AggView>,
    root: PathSeq,
    first: Seq<EntryView>,
    second: Seq<EntryView>,
)
    ensures
        fold_entries(fold_entries(m, root, first), root, second) == fold_entries(
            m,
            root,
            first + second,
        ),
    decreases second.len(),
{
    if second.len() == 0 {
        assert(first + second =~= first);
    } else {
        lemma_fold_batches(m, root, first, second.drop_last());
        assert((first + second).drop_last() =~= first + second.drop_last());
        assert((first + second).last() == second.last());
    }
}

/// Whether directory `d` is credited with a file whose parent directory is
/// `p`: `d` is met on the walk from `p` towards the top of the tree, which
/// ends after the scan root (or at the top when the root is not on the way).
pub open spec fn receives(d: PathSeq, p: PathSeq, root: PathSeq) -> bool
    decreases p.len(),
{
    if d =~~= p {
        true
    } else if p =~~= root || p.len() <= 1 {
        false
    } else {
        receives(d, p.drop_last(), root)
    }
}

/// The size a directory holds in a map (zero when it has no aggregate).
pub open spec fn total_at(m: Map<PathSeq, AggView>, d: PathSeq) -> nat {
    if m.contains_key(d) { m[d].total } else { 0 }
}

/// The file count a directory holds in a map (zero when it has no aggregate).
pub open spec fn files_at(m: Map<PathSeq, AggView>, d: PathSeq) -> nat {
    if m.contains_key(d) { m[d].files } else { 0 }
}

/// Whether entry `e` is a file credited to directory `d`.
pub open spec fn credits(e: EntryView, root: PathSeq, d: PathSeq) -> bool {
    !e.is_dir && e.parent is Some && receives(d, e.parent->0, root)
}

/// The summed sizes of the files in `es` credited to `d`.
pub open spec fn credited_size(es: Seq<EntryView>, root: PathSeq, d: PathSeq) -> nat
    decreases es.len(),
{
    if es.len() == 0 {
        0
    } else {
        credited_size(es.drop_last(), root, d) + if credits(es.last(), root, d) {
            es.last().logical
        } else {
            0
        }
    }
}

/// The number of files in `es` credited to `d`.
pub open spec fn credited_count(es: Seq<EntryView>, root: PathSeq, d: PathSeq) -> nat
    decreases es.len(),
{
    if es.len() == 0 {
        0
    } else {
        credited_count(es.drop_last(), root, d) + if credits(es.last(), root, d) {
            1nat
        } else {
            0nat
        }
    }
}

proof fn lemma_receives_len(d: PathSeq, p: PathSeq, root: PathSeq)
    requires
        receives(d, p, root),
    ensures
        d.len() <= p.len(),
    decreases p.len(),
{
    if d =~~= p {
    } else if p =~~= root || p.len() <= 1 {
    } else {
        lemma_receives_len(d, p.drop_last(), root);
    }
}

proof fn lemma_roll_up_credits(m: Map<PathSeq, AggView>, root: PathSeq, p: PathSeq, e: EntryView, d: PathSeq)
    ensures
        total_at(roll_up(m, root, p, e), d) == total_at(m, d) + if receives(d, p, root) {
            e.logical
        } else {
            0
        },
        files_at(roll_up(m, root, p, e), d) == files_at(m, d) + if receives(d, p, root) {
            1nat
        } else {
            0nat
        },
    decreases p.len(),
{
    let m1 = with_dir(m, p);
    let m2 = m1.insert(p, add_file(m1[p], e));
    if d =~~= p {
        assert(d == p);
        assert(total_at(m2, d) == total_at(m, d) + e.logical);
        if p =~~= root || p.len() <= 1 {
        } else {
            lemma_roll_up_credits(m2, root, p.drop_last(), e, d);
            if receives(d, p.drop_last(), root) {
                lemma_receives_len(d, p.drop_last(), root);
            }
        }
    } else {
        assert(d != p);
        assert(total_at(m2, d) == total_at(m, d));
        assert(files_at(m2, d) == files_at(m, d));
        if p =~~= root || p.len() <= 1 {
        } else {
            lemma_roll_up_credits(m2, root, p.drop_last(), e, d);
        }
    }
}

proof fn lemma_fold_entry_credits(m: Map<PathSeq, AggView>, root: PathSeq, e: EntryView, d: PathSeq)
    ensures
        total_at(fold_entry(m, root, e), d) == total_at(m, d) + if credits(e, root, d) {
            e.logical
        } else {
            0
        },
        files_at(fold_entry(m, root, e), d) == files_at(m, d) + if credits(e, root, d) {
            1nat
        } else {
            0nat
        },
{
    if e.is_dir {
        let m1 = with_dir(m, e.path);
        assert(total_at(m1, d) == total_at(m, d));
        assert(files_at(m1, d) == files_at(m, d));
        match e.parent {
            Some(p) => {
                let m2 = with_dir(m1, p);
                assert(total_at(m2, d) == total_at(m, d));
                assert(files_at(m2, d) == files_at(m, d));
            },
            None => {},
        }
    } else {
        match e.parent {
            Some(p) => lemma_roll_up_credits(m, root, p, e, d),
            None => {},
        }
    }
}

/// Each directory's size is what it already held plus the size of every file
/// whose walk up from its parent directory passes through it; its file count
/// grows by the number of those files.
pub proof fn law_sizes_roll_up(m: Map<PathSeq, AggView>, root: PathSeq, es: Seq<EntryView>, d: PathSeq)
    ensures
        total_at(fold_entries(m, root, es), d) == total_at(m, d) + credited_size(es, root, d),
        files_at(fold_entries(m, root, es), d) == files_at(m, d) + credited_count(es, root, d),
    decreases es.len(),
{
    if es.len() > 0 {
        law_sizes_roll_up(m, root, es.drop_last(), d);
        lemma_fold_entry_credits(fold_entries(m, root, es.drop_last()), root, es.last(), d);
    }
}

/// The directories credited with a file are exactly its parent directory and
/// that directory's ancestors, except those above the scan root when the root
/// is among them.
pub proof fn law_receives_ancestors(d: PathSeq, p: PathSeq, root: PathSeq)
    requires
        p.len() >= 1,
    ensures
        receives(d, p, root) <==> (is_prefix_path(d, p) && !(is_prefix_path(root, p) && d.len()
            < root.len())),
    decreases p.len(),
{
    if d =~~= p {
        assert(d == p);
        assert(p.subrange(0, d.len() as int) =~~= d);
        if is_prefix_path(root, p) && d.len() < root.len() {
        }
    } else if p =~~= root || p.len() <= 1 {
        if is_prefix_path(d, p) {
            if p.len() <= 1 {
                assert(d =~~= p) by {
                    assert(p.subrange(0, d.len() as int) =~~= p);
                }
            } else {
                assert(root == p);
                assert(p.subrange(0, root.len() as int) =~~= root);
                if d.len() >= root.len() {
                    assert(d =~~= p) by {
                        assert(p.subrange(0, d.len() as int) =~~= p);
                    }
                }
            }
        }
    } else {
        let q = p.drop_last();
        law_receives_ancestors(d, q, root);
        // d is a prefix of p other than p itself exactly when it is a prefix of q
        if is_prefix_path(d, p) {
            if d.len() == p.len() {
                assert(d =~~= p) by {
                    assert(p.subrange(0, d.len() as int) =~~= p);
                }
            }
            assert(q.subrange(0, d.len() as int) =~~= p.subrange(0, d.len() as int));
        }
        if is_prefix_path(d, q) {
            assert(q.subrange(0, d.len() as int) =~~= p.subrange(0, d.len() as int));
        }
        if is_prefix_path(root, p) {
            if root.len() == p.len() {
                assert(root =~~= p) by {
                    assert(p.subrange(0, root.len() as int) =~~= p);
                }
            }
            assert(q.subrange(0, root.len() as int) =~~= p.subrange(0, root.len() as int));
        }
        if is_prefix_path(root, q) {
            assert(q.subrange(0, root.len() as int) =~~= p.subrange(0, root.len() as int));
        }
    }
}

/// The directory count a directory holds in a map (zero when it has no
/// aggregate).
pub open spec fn dirs_at(m: Map<PathSeq, AggView>, d: PathSeq) -> nat {
    if m.contains_key(d) { m[d].dirs } else { 0 }
}

/// The number of directories in `es` whose parent is `d`.
pub open spec fn child_dirs(es: Seq<EntryView>, d: PathSeq) -> nat
    decreases es.len(),
{
    if es.len() == 0 {
        0
    } else {
        child_dirs(es.drop_last(), d) + if es.last().is_dir && es.last().parent == Some(d) {
            1nat
        } else {
            0nat
        }
    }
}

proof fn lemma_roll_up_keeps_dirs(m: Map<PathSeq, AggView>, root: PathSeq, p: PathSeq, e: EntryView, d: PathSeq)
    ensures
        dirs_at(roll_up(m, root, p, e), d) == dirs_at(m, d),
    decreases p.len(),
{
    let m1 = with_dir(m, p);
    let m2 = m1.insert(p, add_file(m1[p], e));
    assert(dirs_at(m2, d) == dirs_at(m, d));
    if !(p =~~= root || p.len() <= 1) {
        lemma_roll_up_keeps_dirs(m2, root, p.drop_last(), e, d);
    }
}

/// A directory's directory count grows by one for each directory entry whose
/// parent it is (directories are counted in their parent only, not further
/// up); files never change it.
pub proof fn law_dirs_count_children(m: Map<PathSeq, AggView>, root: PathSeq, es: Seq<EntryView>, d: PathSeq)
    ensures
        dirs_at(fold_entries(m, root, es), d) == dirs_at(m, d) + child_dirs(es, d),
    decreases es.len(),
{
    if es.len() > 0 {
        law_dirs_count_children(m, root, es.drop_last(), d);
        let before = fold_entries(m, root, es.drop_last());
        let e = es.last();
        if e.is_dir {
            let m1 = with_dir(before, e.path);
            assert(dirs_at(m1, d) == dirs_at(before, d));
            match e.parent {
                Some(p) => {
                    let m2 = with_dir(m1, p);
                    assert(dirs_at(m2, d) == dirs_at(before, d));
                },
                None => {},
            }
        } else {
            match e.parent {
                Some(p) => lemma_roll_up_keeps_dirs(before, root, p, e, d),
                None => {},
            }
        }
    }
}

/// The latest modification a directory records in a map (none when it has
/// no aggregate).
pub open spec fn latest_at(m: Map<PathSeq, AggView>, d: PathSeq) -> Option<Timestamp> {
    if m.contains_key(d) { m[d].latest } else { None }
}

/// `start` updated, in order, with the modification time of every file in
/// `es` credited to `d`.
pub open spec fn credited_latest(start: Option<Timestamp>, es: Seq<EntryView>, root: PathSeq, d: PathSeq) -> Option<
    Timestamp,
>
    decreases es.len(),
{
    if es.len() == 0 {
        start
    } else {
        let before = credited_latest(start, es.drop_last(), root, d);
        if credits(es.last(), root, d) {
            latest_of(before, es.last().modified)
        } else {
            before
        }
    }
}

proof fn lemma_roll_up_latest(m: Map<PathSeq, AggView>, root: PathSeq, p: PathSeq, e: EntryView, d: PathSeq)
    ensures
        latest_at(roll_up(m, root, p, e), d) == if receives(d, p, root) {
            latest_of(latest_at(m, d), e.modified)
        } else {
            latest_at(m, d)
        },
    decreases p.len(),
{
    let m1 = with_dir(m, p);
    let m2 = m1.insert(p, add_file(m1[p], e));
    if d =~~= p {
        assert(d == p);
        assert(latest_at(m2, d) == latest_of(latest_at(m, d), e.modified));
        if !(p =~~= root || p.len() <= 1) {
            lemma_roll_up_latest(m2, root, p.drop_last(), e, d);
            if receives(d, p.drop_last(), root) {
                lemma_receives_len(d, p.drop_last(), root);
            }
        }
    } else {
        assert(latest_at(m2, d) == latest_at(m, d));
        if !(p =~~= root || p.len() <= 1) {
            lemma_roll_up_latest(m2, root, p.drop_last(), e, d);
        }
    }
}

/// A directory's latest modification is its earlier one updated with the
/// modification time of every file whose walk up passes through it.
pub proof fn law_latest_rolls_up(m: Map<PathSeq, AggView>, root: PathSeq, es: Seq<EntryView>, d: PathSeq)
    ensures
        latest_at(fold_entries(m, root, es), d) == credited_latest(latest_at(m, d), es, root, d),
    decreases es.len(),
{
    if es.len() > 0 {
        law_latest_rolls_up(m, root, es.drop_last(), d);
        let before = fold_entries(m, root, es.drop_last());
        let e = es.last();
        if e.is_dir {
            let m1 = with_dir(before, e.path);
            assert(latest_at(m1, d) == latest_at(before, d));
            match e.parent {
                Some(p) => {
                    let m2 = with_dir(m1, p);
                    assert(latest_at(m2, d) == latest_at(before, d));
                },
                None => {},
            }
        } else {
            match e.parent {
                Some(p) => lemma_roll_up_latest(before, root, p, e, d),
                None => {},
            }
        }
    }
}

/// Folding two batches one after the other gives exactly the map that folding
/// their concatenation gives.
pub proof fn law_batches_compose(
    m: Map<PathSeq, AggView>,
    root: PathSeq,
    first: Seq<FileEntry>,
    second: Seq<FileEntry>,
)
    ensures
        fold_entries(fold_entries(m, root, entries_view(first)), root, entries_view(second))
            == fold_entries(m, root, entries_view(first + second)),
{
    assert(entries_view(first + second) =~= entries_view(first) + entries_view(second));
    lemma_fold_batches(m, root, entries_view(first), entries_view(second));
}

/// Directory totals stored as machine integers.
#[derive(Debug, Clone, Copy)]
struct DirStats {
    total_size: u64,
    allocated_size: u64,
    file_count: u64,
    dir_count: u64,
    latest_modified: Option<Timestamp>,
}

spec fn stats_view(s: DirStats) -> AggView {
    AggView {
        total: s.total_size as nat,
        allocated: s.allocated_size as nat,
        files: s.file_count as nat,
        dirs: s.dir_count as nat,
        latest: s.latest_modified,
    }
}

/// Directory aggregates keyed by directory path. The keys are paths, which
/// vstd's hash-map specifications do not cover (they model integer keys
/// only), so the map is kept as a list of distinct paths with their totals
/// and searched in order.
pub struct AggregateMap {
    paths: Vec<FsPath>,
    stats: Vec<DirStats>,
    contents: Ghost<Map<PathSeq, AggView>>,
}

impl View for AggregateMap {
    type V = Map<PathSeq, AggView>;

    closed spec fn view(&self) -> Map<PathSeq, AggView> {
        self.contents@
    }
}

/// The totals a directory aggregate carries.
pub open spec fn aggregate_view(a: DirectoryAggregate) -> AggView {
    AggView {
        total: a.total_size as nat,
        allocated: a.allocated_size as nat,
        files: a.file_count as nat,
        dirs: a.dir_count as nat,
        latest: a.latest_modified,
    }
}

impl AggregateMap {
    /// The map's internal invariant: one slot per directory, each slot holding
    /// that directory's totals.
    pub closed spec fn wf(&self) -> bool {
        &&& self.paths@.len() == self.stats@.len()
        &&& self.slots_match()
        &&& self.keys_listed()
        &&& self.slots_distinct()
    }

    closed spec fn slots_match(&self) -> bool {
        forall|i: int|
            #![trigger self.paths@[i]]
            0 <= i < self.paths@.len() ==> {
                &&& self.contents@.contains_key(self.paths@[i]@)
                &&& self.contents@[self.paths@[i]@] == stats_view(self.stats@[i])
            }
    }

    closed spec fn keys_listed(&self) -> bool {
        forall|k: PathSeq|
            #[trigger] self.contents@.contains_key(k) ==> exists|i: int|
                #![trigger self.paths@[i]]
                0 <= i < self.paths@.len() && self.paths@[i]@ == k
    }

    closed spec fn slots_distinct(&self) -> bool {
        forall|i: int, j: int|
            #![trigger self.paths@[i], self.paths@[j]]
            0 <= i < self.paths@.len() && 0 <= j < self.paths@.len() && i != j ==> self.paths@[i]@
                != self.paths@[j]@
    }

    /// An empty map.
    pub fn new() -> (m: AggregateMap)
        ensures
            m.wf(),
            m@ == Map::<PathSeq, AggView>::empty(),
    {
        AggregateMap { paths: Vec::new(), stats: Vec::new(), contents: Ghost(Map::empty()) }
    }

    /// The number of directories with an aggregate.
    pub fn len(&self) -> (n: usize)
        requires
            self.wf(),
        ensures
            n == self@.dom().len(),
    {
        proof {
            self.lemma_dom_len();
        }
        self.paths.len()
    }

    proof fn lemma_dom_len(&self)
        requires
            self.wf(),
        ensures
            self@.dom().len() == self.paths@.len(),
            self@.dom().finite(),
    {
        let keys = Seq::new(self.paths@.len(), |i: int| self.paths@[i]@);
        assert(keys.no_duplicates()) by {
            assert forall|i: int, j: int| 0 <= i < keys.len() && 0 <= j < keys.len() && i != j implies keys[i] != keys[j] by {
                assert(self.paths@[i]@ != self.paths@[j]@);
            }
        }
        assert(keys.to_set() =~= self@.dom()) by {
            assert forall|k: PathSeq| self@.dom().contains(k) implies keys.to_set().contains(k) by {
                assert(self.contents@.contains_key(k));
                let i = choose|i: int| #![trigger self.paths@[i]] 0 <= i < self.paths@.len() && self.paths@[i]@ == k;
                assert(keys[i] == k);
            }
            assert forall|k: PathSeq| keys.to_set().contains(k) implies self@.dom().contains(k) by {
                let i = choose|i: int| 0 <= i < keys.len() && keys[i] == k;
                let _ = self.paths@[i];
            }
        }
        keys.unique_seq_to_set();
    }

    /// The slot holding `p`, if any.
    fn index_of(&self, p: &FsPath) -> (r: Option<usize>)
        requires
            self.wf(),
        ensures
            match r {
                Some(i) => i < self.paths@.len() && self.paths@[i as int]@ == p@,
                None => !self@.contains_key(p@),
            },
    {
        let n = self.paths.len();
        let mut i: usize = 0;
        while i < n
            invariant
                n == self.paths@.len(),
                i <= n,
                forall|k: int| 0 <= k < i ==> self.paths@[k]@ != p@,
            decreases n - i,
        {
            if self.paths[i].same_as(p) {
                return Some(i);
            }
            i = i + 1;
        }
        proof {
            if self@.contains_key(p@) {
                assert(self.contents@.contains_key(p@));
                let j = choose|j: int| #![trigger self.paths@[j]] 0 <= j < self.paths@.len() && self.paths@[j]@ == p@;
                assert(self.paths@[j]@ != p@);
            }
        }
        None
    }

    /// The slot holding `p`, adding an empty aggregate for it first if needed.
    fn ensure(&mut self, p: &FsPath) -> (i: usize)
        requires
            old(self).wf(),
        ensures
            final(self).wf(),
            final(self)@ == with_dir(old(self)@, p@),
            i < final(self).paths@.len(),
            final(self).paths@[i as int]@ == p@,
    {
        match self.index_of(p) {
            Some(i) => i,
            None => {
                let ghost old_m = self.contents@;
                let ghost old_paths = self.paths@;
                let n = self.paths.len();
                self.paths.push(p.copied());
                self.stats.push(
                    DirStats {
                        total_size: 0,
                        allocated_size: 0,
                        file_count: 0,
                        dir_count: 0,
                        latest_modified: None,
                    },
                );
                self.contents = Ghost(old_m.insert(p@, empty_agg()));
                proof {
                    assert forall|i: int| #![trigger self.paths@[i]] 0 <= i < self.paths@.len() implies {
                        &&& self.contents@.contains_key(self.paths@[i]@)
                        &&& self.contents@[self.paths@[i]@] == stats_view(self.stats@[i])
                    } by {
                        if i < n {
                            assert(self.paths@[i] == old_paths[i]);
                            assert(old_m.contains_key(old_paths[i]@));
                            assert(old_paths[i]@ != p@);
                        } else {
                            assert(stats_view(self.stats@[i]) == empty_agg());
                        }
                    }
                    assert forall|k: PathSeq| #[trigger] self.contents@.contains_key(k) implies exists|i: int|
                        #![trigger self.paths@[i]]
                        0 <= i < self.paths@.len() && self.paths@[i]@ == k by {
                        if k == p@ {
                            assert(self.paths@[n as int]@ == k);
                        } else {
                            assert(old_m.contains_key(k));
                            let j = choose|j: int| #![trigger old_paths[j]] 0 <= j < old_paths.len() && old_paths[j]@ == k;
                            assert(self.paths@[j] == old_paths[j]);
                        }
                    }
                    assert forall|i: int, j: int|
                        0 <= i < self.paths@.len() && 0 <= j < self.paths@.len() && i != j implies self.paths@[i]@
                            != self.paths@[j]@ by {
                        if i < n && j < n {
                            assert(self.paths@[i] == old_paths[i]);
                            assert(self.paths@[j] == old_paths[j]);
                        } else if i < n {
                            assert(old_m.contains_key(old_paths[i]@));
                        } else if j < n {
                            assert(old_m.contains_key(old_paths[j]@));
                        }
                    }
                }
                n
            },
        }
    }

    /// Replaces the totals in slot `i`.
    fn set_stats(&mut self, i: usize, s: DirStats)
        requires
            old(self).wf(),
            i < old(self).paths@.len(),
        ensures
            final(self).wf(),
            final(self)@ == old(self)@.insert(old(self).paths@[i as int]@, stats_view(s)),
            final(self).paths@ == old(self).paths@,
    {
        let ghost old_m = self.contents@;
        let ghost key = self.paths@[i as int]@;
        self.stats.set(i, s);
        self.contents = Ghost(old_m.insert(key, stats_view(s)));
        proof {
            assert forall|j: int| #![trigger self.paths@[j]] 0 <= j < self.paths@.len() implies {
                &&& self.contents@.contains_key(self.paths@[j]@)
                &&& self.contents@[self.paths@[j]@] == stats_view(self.stats@[j])
            } by {
                if j != i {
                    assert(self.paths@[j]@ != key);
                }
            }
            assert forall|k: PathSeq| #[trigger] self.contents@.contains_key(k) implies exists|j: int|
                #![trigger self.paths@[j]]
                0 <= j < self.paths@.len() && self.paths@[j]@ == k by {
                if k == key {
                    assert(self.paths@[i as int]@ == k);
                } else {
                    assert(old_m.contains_key(k));
                }
            }
        }
    }

    /// The aggregate of directory `p`, if there is one.
    pub fn get(&self, p: &FsPath) -> (r: Option<DirectoryAggregate>)
        requires
            self.wf(),
        ensures
            match r {
                Some(a) => self@.contains_key(p@) && a.path@ == p@ && aggregate_view(a) == self@[p@],
                None => !self@.contains_key(p@),
            },
    {
        match self.index_of(p) {
            Some(i) => {
                let s = self.stats[i];
                Some(
                    DirectoryAggregate {
                        path: self.paths[i].copied(),
                        total_size: s.total_size,
                        allocated_size: s.allocated_size,
                        file_count: s.file_count,
                        dir_count: s.dir_count,
                        latest_modified: s.latest_modified,
                    },
                )
            },
            None => None,
        }
    }

    /// Every aggregate in the map, one per directory.
    pub fn to_vec(&self) -> (r: Vec<DirectoryAggregate>)
        requires
            self.wf(),
        ensures
            r@.len() == self@.dom().len(),
            forall|i: int|
                #![trigger r@[i]]
                0 <= i < r@.len() ==> self@.contains_key(r@[i].path@) && self@[r@[i].path@]
                    == aggregate_view(r@[i]),
            forall|k: PathSeq|
                #![trigger self@[k]]
                self@.contains_key(k) ==> exists|i: int| 0 <= i < r@.len() && r@[i].path@ == k,
    {
        proof {
            self.lemma_dom_len();
        }
        let mut out: Vec<DirectoryAggregate> = Vec::new();
        let n = self.paths.len();
        let mut i: usize = 0;
        while i < n
            invariant
                self.wf(),
                n == self.paths@.len(),
                i <= n,
                out@.len() == i,
                forall|j: int|
                    #![trigger out@[j]]
                    0 <= j < i ==> out@[j].path@ == self.paths@[j]@ && aggregate_view(out@[j])
                        == stats_view(self.stats@[j]),
            decreases n - i,
        {
            let s = self.stats[i];
            out.push(
                DirectoryAggregate {
                    path: self.paths[i].copied(),
                    total_size: s.total_size,
                    allocated_size: s.allocated_size,
                    file_count: s.file_count,
                    dir_count: s.dir_count,
                    latest_modified: s.latest_modified,
                },
            );
            i = i + 1;
        }
        proof {
            assert forall|i: int| #![trigger out@[i]] 0 <= i < out@.len() implies self@.contains_key(out@[i].path@)
                && self@[out@[i].path@] == aggregate_view(out@[i]) by {
                let _ = self.paths@[i];
            }
            assert forall|k: PathSeq| #![trigger self@[k]] self@.contains_key(k) implies exists|i: int|
                0 <= i < out@.len() && out@[i].path@ == k by {
                assert(self.contents@.contains_key(k));
                let j = choose|j: int| #![trigger self.paths@[j]] 0 <= j < self.paths@.len() && self.paths@[j]@ == k;
                assert(out@[j].path@ == k);
            }
        }
        out
    }
}

/// Rolls a batch of scanned entries into `aggregates`.
pub fn fold_into(aggregates: &mut AggregateMap, root: &FsPath, entries: &[FileEntry])
    requires
        old(aggregates).wf(),
        bounded(fold_entries(old(aggregates)@, root@, entries_view(entries@))),
    ensures
        final(aggregates).wf(),
        final(aggregates)@ == fold_entries(old(aggregates)@, root@, entries_view(entries@)),
{
    let ghost start = aggregates@;
    let ghost es = entries_view(entries@);
    let ghost target = fold_entries(start, root@, es);
    let n = entries.len();
    let mut i: usize = 0;
    while i < n
        invariant
            n == entries@.len(),
            es == entries_view(entries@),
            target == fold_entries(start, root@, es),
            bounded(target),
            i <= n,
            aggregates.wf(),
            aggregates@ == fold_entries(start, root@, es.take(i as int)),
        decreases n - i,
    {
        let ghost before = aggregates@;
        proof {
            assert(es.take(i + 1).drop_last() =~= es.take(i as int));
            assert(es.take(i + 1).last() == es[i as int]);
            assert(es.take(i as int) + es.skip(i as int) =~= es);
            lemma_fold_batches(start, root@, es.take(i + 1), es.skip(i + 1));
            assert(es.take(i + 1) + es.skip(i + 1) =~= es);
            lemma_fold_grows(fold_entries(start, root@, es.take(i + 1)), root@, es.skip(i + 1));
            lemma_grows_bounded(fold_entries(start, root@, es.take(i + 1)), target);
        }
        fold_one(aggregates, root, &entries[i]);
        proof {
            assert(aggregates@ == fold_entries(start, root@, es.take(i + 1)));
        }
        i = i + 1;
    }
    proof {
        assert(es.take(n as int) =~= es);
    }
}

/// Folds one entry into the map.
fn fold_one(aggregates: &mut AggregateMap, root: &FsPath, entry: &FileEntry)
    requires
        old(aggregates).wf(),
        bounded(fold_entry(old(aggregates)@, root@, entry_view(*entry))),
    ensures
        final(aggregates).wf(),
        final(aggregates)@ == fold_entry(old(aggregates)@, root@, entry_view(*entry)),
{
    let ghost e = entry_view(*entry);
    if entry.is_dir {
        aggregates.ensure(&entry.path);
        match &entry.parent {
            Some(parent) => {
                let j = aggregates.ensure(parent);
                let s = aggregates.stats[j];
                proof {
                    assert(aggregates@[parent@] == stats_view(s));
                    let fin = fold_entry(old(aggregates)@, root@, e);
                    assert(fin.contains_key(parent@));
                    assert(fin[parent@].dirs == s.dir_count + 1);
                }
                aggregates.set_stats(j, DirStats { dir_count: s.dir_count + 1, ..s });
            },
            None => {},
        }
    } else {
        match &entry.parent {
            Some(parent) => roll_up_exec(aggregates, root, parent, entry),
            None => {},
        }
    }
}

/// Adds a file entry to `start_dir` and its ancestors up to the scan root.
fn roll_up_exec(aggregates: &mut AggregateMap, root: &FsPath, start_dir: &FsPath, entry: &FileEntry)
    requires
        old(aggregates).wf(),
        bounded(roll_up(old(aggregates)@, root@, start_dir@, entry_view(*entry))),
    ensures
        final(aggregates).wf(),
        final(aggregates)@ == roll_up(old(aggregates)@, root@, start_dir@, entry_view(*entry)),
{
    let ghost e = entry_view(*entry);
    let ghost target = roll_up(aggregates@, root@, start_dir@, e);
    let mut dir = start_dir.copied();
    loop
        invariant_except_break
            aggregates.wf(),
            e == entry_view(*entry),
            bounded(target),
            roll_up(aggregates@, root@, dir@, e) == target,
        ensures
            aggregates.wf(),
            aggregates@ == target,
        decreases dir@.len(),
    {
        let ghost before = aggregates@;
        proof {
            lemma_roll_up_grows(aggregates@, root@, dir@, e);
            lemma_grows_bounded(
                with_dir(aggregates@, dir@).insert(dir@, add_file(with_dir(aggregates@, dir@)[dir@], e)),
                target,
            );
        }
        add_to_dir(aggregates, &dir, entry);
        if dir.same_as(root) {
            break;
        }
        match dir.parent() {
            Some(p) => {
                proof {
                    assert(p@ == dir@.drop_last());
                    assert(!(dir@ =~~= root@));
                    assert(roll_up(before, root@, dir@, e) == roll_up(aggregates@, root@, p@, e));
                }
                dir = p;
            },
            None => {
                break;
            },
        }
    }
}

/// Adds one file entry to the totals of directory `dir`.
fn add_to_dir(aggregates: &mut AggregateMap, dir: &FsPath, entry: &FileEntry)
    requires
        old(aggregates).wf(),
        bounded(
            with_dir(old(aggregates)@, dir@).insert(
                dir@,
                add_file(with_dir(old(aggregates)@, dir@)[dir@], entry_view(*entry)),
            ),
        ),
    ensures
        final(aggregates).wf(),
        final(aggregates)@ == with_dir(old(aggregates)@, dir@).insert(
            dir@,
            add_file(with_dir(old(aggregates)@, dir@)[dir@], entry_view(*entry)),
        ),
{
    let ghost e = entry_view(*entry);
    let ghost m1 = with_dir(old(aggregates)@, dir@);
    let ghost m2 = m1.insert(dir@, add_file(m1[dir@], e));
    let j = aggregates.ensure(dir);
    let s = aggregates.stats[j];
    proof {
        assert(aggregates.paths@[j as int]@ == dir@);
        assert(m1[dir@] == stats_view(s));
        assert(m2.contains_key(dir@));
        assert(m2[dir@].total <= u64::MAX);
    }
    let updated = DirStats {
        total_size: s.total_size + entry.logical_size,
        allocated_size: s.allocated_size + entry.allocated_size,
        file_count: s.file_count + 1,
        dir_count: s.dir_count,
        latest_modified: later_of(s.latest_modified, entry.modified_at),
    };
    aggregates.set_stats(j, updated);
    proof {
        assert(stats_view(updated) == add_file(m1[dir@], e));
    }
}

/// Aggregates one complete list of entries into a fresh map.
pub fn aggregate_directories(root: &FsPath, entries: &[FileEntry]) -> (m: AggregateMap)
    requires
        bounded(fold_entries(Map::empty(), root@, entries_view(entries@))),
    ensures
        m.wf(),
        m@ == fold_entries(Map::empty(), root@, entries_view(entries@)),
{
    let mut aggregates = AggregateMap::new();
    fold_into(&mut aggregates, root, entries);
    aggregates
}

} // verus!
