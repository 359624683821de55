//! Core storage data model shared by every engine stage.

use vstd::prelude::*;
use crate::path::{FsPath, PathSeq};
use crate::text::str_eq;

verus! {

/// How careful the user must be before removing something.
#[derive(Debug, Clone, Copy, PartialEq, Eq, Structural)]
pub enum SafetyLevel {
    Safe,
    Review,
    Advanced,
    NeverAutoDelete,
}

/// The stable textual name of each safety level.
pub open spec fn safety_name(level: SafetyLevel) -> Seq<char> {
    match level {
        SafetyLevel::Safe => "safe"@,
        SafetyLevel::Review => "review"@,
        SafetyLevel::Advanced => "advanced"@,
        SafetyLevel::NeverAutoDelete => "never_auto_delete"@,
    }
}

/// Parses a stored safety name; anything unrecognised is treated as the most
/// restrictive level.
pub open spec fn safety_from_name(s: Seq<char>) -> SafetyLevel {
    if s == "safe"@ {
        SafetyLevel::Safe
    } else if s == "review"@ {
        SafetyLevel::Review
    } else if s == "advanced"@ {
        SafetyLevel::Advanced
    } else {
        SafetyLevel::NeverAutoDelete
    }
}

impl SafetyLevel {
    pub fn as_str(&self) -> (r: &'static str)
        ensures
            r@ == safety_name(*self),
    {
        match self {
            SafetyLevel::Safe => "safe",
            SafetyLevel::Review => "review",
            SafetyLevel::Advanced => "advanced",
            SafetyLevel::NeverAutoDelete => "never_auto_delete",
        }
    }

    pub fn from_str_or_never(s: &str) -> (r: Self)
        ensures
            r == safety_from_name(s@),
    {
        if str_eq(s, "safe") {
            SafetyLevel::Safe
        } else if str_eq(s, "review") {
            SafetyLevel::Review
        } else if str_eq(s, "advanced") {
            SafetyLevel::Advanced
        } else {
            SafetyLevel::NeverAutoDelete
        }
    }
}

/// Proof that a safety level survives being written out and read back.
pub proof fn law_safety_name_round_trip(level: SafetyLevel)
    ensures
        safety_from_name(safety_name(level)) == level,
{
    reveal_strlit("safe");
    reveal_strlit("review");
    reveal_strlit("advanced");
    reveal_strlit("never_auto_delete");
    assert("review"@ != "safe"@) by { assert("review"@[0] != "safe"@[0]); }
    assert("advanced"@ != "safe"@) by { assert("advanced"@[0] != "safe"@[0]); }
    assert("advanced"@ != "review"@) by { assert("advanced"@[0] != "review"@[0]); }
    assert("never_auto_delete"@ != "safe"@) by { assert("never_auto_delete"@.len() != "safe"@.len()); }
    assert("never_auto_delete"@ != "review"@) by { assert("never_auto_delete"@.len() != "review"@.len()); }
    assert("never_auto_delete"@ != "advanced"@) by { assert("never_auto_delete"@.len() != "advanced"@.len()); }
}

/// A point in time: whole seconds since the Unix epoch and the nanoseconds
/// within that second.
#[derive(Debug, Clone, Copy, PartialEq, Eq, Structural)]
pub struct Timestamp {
    pub secs: i64,
    pub nanos: u32,
}

/// Chronological order of two points in time.
pub open spec fn ts_before(a: Timestamp, b: Timestamp) -> bool {
    a.secs < b.secs || (a.secs == b.secs && a.nanos < b.nanos)
}

/// Order of optional times, an absent time coming before every present one.
pub open spec fn opt_ts_before(a: Option<Timestamp>, b: Option<Timestamp>) -> bool {
    match (a, b) {
        (None, Some(_)) => true,
        (Some(x), Some(y)) => ts_before(x, y),
        _ => false,
    }
}

/// The later of two optional times (the first one when neither is later).
pub open spec fn latest_of(a: Option<Timestamp>, b: Option<Timestamp>) -> Option<Timestamp> {
    if opt_ts_before(a, b) { b } else { a }
}

/// Computes `latest_of`.
pub fn later_of(a: Option<Timestamp>, b: Option<Timestamp>) -> (r: Option<Timestamp>)
    ensures
        r == latest_of(a, b),
{
    match (a, b) {
        (None, Some(_)) => b,
        (Some(x), Some(y)) => {
            if x.secs < y.secs || (x.secs == y.secs && x.nanos < y.nanos) {
                b
            } else {
                a
            }
        },
        _ => a,
    }
}

/// One scanned filesystem object.
#[derive(Debug, Clone)]
pub struct FileEntry {
    pub id: u128,
    pub scan_id: u128,
    pub path: FsPath,
    pub parent: Option<FsPath>,
    pub logical_size: u64,
    pub allocated_size: u64,
    pub extension: Option<String>,
    pub created_at: Option<Timestamp>,
    pub modified_at: Option<Timestamp>,
    pub accessed_at: Option<Timestamp>,
    pub is_dir: bool,
    pub is_symlink: bool,
    pub is_hardlink: bool,
    pub is_hidden: bool,
    pub is_system: bool,
    pub filesystem_id: Option<String>,
}

/// Totals rolled up for one directory.
#[derive(Debug, Clone)]
pub struct DirectoryAggregate {
    pub path: FsPath,
    pub total_size: u64,
    pub allocated_size: u64,
    pub file_count: u64,
    pub dir_count: u64,
    pub latest_modified: Option<Timestamp>,
}

/// A knowledge-base entry describing one recognised storage location.
#[derive(Debug, Clone)]
pub struct StorageCategoryDef {
    pub id: String,
    pub display_name: String,
    pub description: String,
    pub what_happens_if_removed: String,
    pub regeneratable: bool,
    pub reversible: bool,
    pub safety: SafetyLevel,
}

/// One scanned path after the classification and safety stages have run.
#[derive(Debug, Clone)]
pub struct ClassifiedPath {
    pub path: FsPath,
    pub category_id: String,
    pub safety: SafetyLevel,
    pub size: u64,
    pub last_activity: Option<Timestamp>,
}

/// A group of classified paths the user can choose to clean up as a unit.
#[derive(Debug, Clone)]
pub struct CleanupCandidate {
    pub id: u128,
    pub category_id: String,
    pub display_name: String,
    pub paths: Vec<FsPath>,
    pub total_size: u64,
    pub safety: SafetyLevel,
}

/// The size one category takes up in one scan.
#[derive(Debug, Clone)]
pub struct CategoryTotal {
    pub category_id: String,
    pub total_size: u64,
    pub item_count: u64,
}

/// Per-scan category totals kept for growth diagnostics.
#[derive(Debug, Clone)]
pub struct HistoricalSnapshot {
    pub id: u128,
    pub scan_id: u128,
    pub taken_at: Timestamp,
    pub total_size: u64,
    pub category_totals: Vec<CategoryTotal>,
}

/// Files confirmed to have identical content.
#[derive(Debug, Clone)]
pub struct DuplicateGroup {
    pub id: u128,
    pub size: u64,
    pub content_hash: String,
    pub paths: Vec<FsPath>,
}

/// Outcome of a completed cleanup action.
#[derive(Debug, Clone)]
pub struct CleanupAction {
    pub id: u128,
    pub performed_at: Timestamp,
    pub category_id: String,
    pub paths: Vec<FsPath>,
    pub bytes_freed: u64,
    pub undoable: bool,
}

/// An application installed on this machine.
#[derive(Debug, Clone)]
pub struct InstalledApp {
    pub name: String,
    pub publisher: Option<String>,
    pub install_location: Option<String>,
    pub estimated_size_bytes: Option<u64>,
    pub uninstall_command: Option<String>,
}

/// How specifically a directory name matched an application name.
#[derive(Debug, Clone, Copy, PartialEq, Eq, Structural)]
pub enum MatchConfidence {
    /// A substring match in either direction.
    Partial,
    /// The normalized names are identical.
    Exact,
}

/// Storage attributed to one installed application.
#[derive(Debug, Clone)]
pub struct AppAssociation {
    pub app: InstalledApp,
    pub associated_paths: Vec<FsPath>,
    pub associated_size: u64,
    pub confidence: MatchConfidence,
}

} // verus!
