//! The desktop shell's scan session: the one state the interface is driven by
//! rather than scattered booleans. At most one scan runs at a time; a scan can
//! only be cancelled while it holds a cancellation handle.
//!
//! Also the grouping of categories the shell presents as developer storage.

use vstd::prelude::*;
use crate::model::CategoryTotal;
use crate::text::str_eq;

verus! {

/// Where the current (or last) scan stands.
#[derive(Debug, Clone, Copy, PartialEq, Eq, Structural)]
pub enum ScanStatus {
    Idle,
    Starting,
    Scanning,
    Cancelling,
    Completed,
    Failed,
    Cancelled,
}

/// The scan session: its status (none before the first scan), the scan's
/// identity once the database assigned one, the root being scanned, and
/// whether a cancellation handle is held.
#[derive(Debug, Clone)]
pub struct ScanSession {
    pub status: Option<ScanStatus>,
    pub scan_id: Option<u128>,
    pub root: Option<String>,
    pub cancellable: bool,
}

/// The status a session reports: idle before any scan.
pub open spec fn status_of(s: ScanSession) -> ScanStatus {
    match s.status {
        Some(st) => st,
        None => ScanStatus::Idle,
    }
}

/// Whether a scan is under way: starting, scanning or being cancelled.
pub open spec fn active(s: ScanSession) -> bool {
    let st = status_of(s);
    st == ScanStatus::Starting || st == ScanStatus::Scanning || st == ScanStatus::Cancelling
}

impl ScanSession {
    /// A session before any scan.
    pub fn new() -> (s: ScanSession)
        ensures
            s.status is None,
            s.scan_id is None,
            s.root is None,
            !s.cancellable,
    {
        ScanSession { status: None, scan_id: None, root: None, cancellable: false }
    }

    /// The status the shell shows.
    pub fn current_status(&self) -> (r: ScanStatus)
        ensures
            r == status_of(*self),
    {
        match self.status {
            Some(st) => st,
            None => ScanStatus::Idle,
        }
    }

    /// Whether a scan is under way.
    pub fn is_active(&self) -> (r: bool)
        ensures
            r == active(*self),
    {
        let st = self.current_status();
        match st {
            ScanStatus::Starting | ScanStatus::Scanning | ScanStatus::Cancelling => true,
            _ => false,
        }
    }

    /// Starts a scan of `root`: refused while another scan is under way (the
    /// session is then left as it was); otherwise the session is reset to a
    /// starting scan of `root` holding a cancellation handle.
    pub fn begin_scan(&mut self, root: String) -> (r: Result<(), String>)
        ensures
            active(*old(self)) ==> r is Err && *final(self) == *old(self),
            active(*old(self)) ==> (r matches Err(msg) && msg@ == "a scan is already in progress"@),
            !active(*old(self)) ==> r is Ok && *final(self) == (ScanSession {
                status: Some(ScanStatus::Starting),
                scan_id: None,
                root: Some(root),
                cancellable: true,
            }),
    {
        if self.is_active() {
            return Err(String::from_str("a scan is already in progress"));
        }
        *self = ScanSession { status: Some(ScanStatus::Starting), scan_id: None, root: Some(root), cancellable: true };
        Ok(())
    }

    /// The database assigned the scan its identity and the walk began.
    pub fn scanning(&mut self, scan_id: u128)
        ensures
            *final(self) == (ScanSession {
                status: Some(ScanStatus::Scanning),
                scan_id: Some(scan_id),
                ..*old(self)
            }),
    {
        self.status = Some(ScanStatus::Scanning);
        self.scan_id = Some(scan_id);
    }

    /// The scan ended: with the status its summary reports, or failed when it
    /// produced no summary. The cancellation handle is released.
    pub fn scan_ended(&mut self, outcome: Option<ScanStatus>)
        ensures
            final(self).status == Some(
                match outcome {
                    Some(st) => st,
                    None => ScanStatus::Failed,
                },
            ),
            !final(self).cancellable,
            final(self).scan_id == old(self).scan_id,
            final(self).root == old(self).root,
    {
        self.status = Some(
            match outcome {
                Some(st) => st,
                None => ScanStatus::Failed,
            },
        );
        self.cancellable = false;
    }

    /// Asks the running scan to stop: only possible while a cancellation
    /// handle is held, and then the session is cancelling.
    pub fn cancel(&mut self) -> (r: Result<(), String>)
        ensures
            old(self).cancellable ==> r is Ok && *final(self) == (ScanSession {
                status: Some(ScanStatus::Cancelling),
                ..*old(self)
            }),
            !old(self).cancellable ==> (r matches Err(msg) && msg@ == "no scan is currently running"@)
                && *final(self) == *old(self),
    {
        if self.cancellable {
            self.status = Some(ScanStatus::Cancelling);
            Ok(())
        } else {
            Err(String::from_str("no scan is currently running"))
        }
    }
}

/// No second scan can start while one is under way, whatever the root; and
/// once a scan ended, a new one can start.
pub proof fn law_one_scan_at_a_time(s: ScanSession, outcome: ScanStatus)
    requires
        outcome == ScanStatus::Completed || outcome == ScanStatus::Failed || outcome
            == ScanStatus::Cancelled,
    ensures
        active(ScanSession { status: Some(ScanStatus::Starting), ..s }),
        active(ScanSession { status: Some(ScanStatus::Scanning), ..s }),
        active(ScanSession { status: Some(ScanStatus::Cancelling), ..s }),
        !active(ScanSession { status: Some(outcome), ..s }),
{
}

/// The category identifiers the shell groups as developer storage.
pub open spec fn developer_category_ids() -> Seq<Seq<char>> {
    seq![
        "npm-cache-nested"@,
        "node-modules"@,
        "cargo-target-debug"@,
        "cargo-target-release"@,
        "cargo-registry-cache"@,
        "npm-cache"@,
        "pnpm-store"@,
        "yarn-cache"@,
        "pip-cache"@,
        "python-venv"@,
        "gradle-cache"@,
        "maven-repo"@,
        "jetbrains-cache"@,
        "vscode-cache"@,
        "docker-data"@,
        "git-internals"@,
        "build-output-dist"@,
        "android-build"@,
        "xcode-derived-data"@,
        "xcode-archives"@,
        "xcode-simulators"@,
        "xcode-device-support"@,
        "spm-cache"@,
        "homebrew-cache"@,
        "cocoapods"@,
    ]
}

/// Whether a category is developer storage.
pub open spec fn is_developer_category(id: Seq<char>) -> bool {
    developer_category_ids().contains(id)
}

/// The developer-storage categories among `totals`, in order.
pub open spec fn developer_totals(totals: Seq<CategoryTotal>) -> Seq<CategoryTotal> {
    totals.filter(|t: CategoryTotal| is_developer_category(t.category_id@))
}

/// The developer category identifiers, as text.
fn developer_ids() -> (r: Vec<&'static str>)
    ensures
        Seq::new(r@.len(), |i: int| r@[i]@) == developer_category_ids(),
{
    let r = vec![
        "npm-cache-nested",
        "node-modules",
        "cargo-target-debug",
        "cargo-target-release",
        "cargo-registry-cache",
        "npm-cache",
        "pnpm-store",
        "yarn-cache",
        "pip-cache",
        "python-venv",
        "gradle-cache",
        "maven-repo",
        "jetbrains-cache",
        "vscode-cache",
        "docker-data",
        "git-internals",
        "build-output-dist",
        "android-build",
        "xcode-derived-data",
        "xcode-archives",
        "xcode-simulators",
        "xcode-device-support",
        "spm-cache",
        "homebrew-cache",
        "cocoapods",
    ];
    assert(Seq::new(r@.len(), |i: int| r@[i]@) =~= developer_category_ids());
    r
}

/// Whether `id` is a developer category.
fn is_developer(ids: &Vec<&'static str>, id: &str) -> (r: bool)
    requires
        Seq::new(ids@.len(), |i: int| ids@[i]@) == developer_category_ids(),
    ensures
        r == is_developer_category(id@),
{
    let ghost names = Seq::new(ids@.len(), |i: int| ids@[i]@);
    let mut i: usize = 0;
    while i < ids.len()
        invariant
            i <= ids@.len(),
            names == Seq::new(ids@.len(), |i: int| ids@[i]@),
            names == developer_category_ids(),
            forall|k: int| 0 <= k < i ==> names[k] != id@,
        decreases ids@.len() - i,
    {
        if str_eq(ids[i], id) {
            assert(names[i as int] == id@);
            return true;
        }
        i = i + 1;
    }
    false
}

proof fn lemma_filter_step(totals: Seq<CategoryTotal>, i: int)
    requires
        0 <= i < totals.len(),
    ensures
        developer_totals(totals.take(i + 1)) == if is_developer_category(totals[i].category_id@) {
            developer_totals(totals.take(i)).push(totals[i])
        } else {
            developer_totals(totals.take(i))
        },
{
    reveal(Seq::filter);
    assert(totals.take(i + 1).drop_last() =~= totals.take(i));
}

/// The developer-storage categories among `totals`, in order.
pub fn developer_storage(totals: Vec<CategoryTotal>) -> (r: Vec<CategoryTotal>)
    ensures
        r@ == developer_totals(totals@),
{
    let ids = developer_ids();
    let mut out: Vec<CategoryTotal> = Vec::new();
    let mut rest = totals;
    let ghost all = rest@;
    let mut i: usize = 0;
    let n = rest.len();
    while rest.len() > 0
        invariant
            all.len() == n,
            i + rest@.len() == n,
            rest@ == all.skip(i as int),
            out@ == developer_totals(all.take(i as int)),
            Seq::new(ids@.len(), |k: int| ids@[k]@) == developer_category_ids(),
        decreases rest@.len(),
    {
        let t = rest.remove(0);
        proof {
            assert(t == all[i as int]);
            lemma_filter_step(all, i as int);
        }
        if is_developer(&ids, t.category_id.as_str()) {
            out.push(t);
        }
        i = i + 1;
        proof {
            assert(rest@ =~= all.skip(i as int));
        }
    }
    proof {
        assert(all.take(i as int) =~= all);
    }
    out
}

} // verus!
