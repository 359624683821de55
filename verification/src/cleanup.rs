//! CleanupPlanner and CleanupExecutor.
//!
//! Required flow: recommendation -> cleanup plan -> user approval -> executor.
//! A recommendation never reaches the executor; only explicit candidate
//! selection builds a plan, and only an explicit execution performs a deletion.
//!
//! Every path is revalidated immediately before deletion, because a scan can
//! be minutes old by the time the user approves the plan: it must still exist,
//! it is re-canonicalized (symlinks and `..` resolved), and the canonical path
//! is re-checked against the platform's protected-root allowlist. The executor
//! here decides; the caller performs each filesystem step it asks for and
//! reports the outcome back.

use vstd::prelude::*;
use crate::model::{CleanupAction, CleanupCandidate, SafetyLevel, Timestamp};
use crate::path::FsPath;
use crate::runtime::{new_id, now};

verus! {

/// The sum of the candidates' sizes.
pub open spec fn candidates_size(cs: Seq<CleanupCandidate>) -> nat
    decreases cs.len(),
{
    if cs.len() == 0 {
        0
    } else {
        candidates_size(cs.drop_last()) + cs.last().total_size as nat
    }
}

/// The candidates the user selected for one cleanup.
pub struct CleanupPlan {
    pub candidates: Vec<CleanupCandidate>,
}

impl CleanupPlan {
    /// The bytes the whole plan would reclaim.
    pub fn total_size(&self) -> (r: u64)
        requires
            candidates_size(self.candidates@) <= u64::MAX,
        ensures
            r == candidates_size(self.candidates@),
    {
        let mut total: u64 = 0;
        let mut i: usize = 0;
        while i < self.candidates.len()
            invariant
                i <= self.candidates@.len(),
                candidates_size(self.candidates@) <= u64::MAX,
                total == candidates_size(self.candidates@.take(i as int)),
            decreases self.candidates@.len() - i,
        {
            proof {
                let cs = self.candidates@;
                assert(cs.take(i + 1).drop_last() =~= cs.take(i as int));
                lemma_candidates_size_prefix(cs, i + 1);
            }
            total = total + self.candidates[i].total_size;
            i = i + 1;
        }
        proof {
            assert(self.candidates@.take(i as int) =~= self.candidates@);
        }
        total
    }
}

proof fn lemma_candidates_size_prefix(cs: Seq<CleanupCandidate>, k: int)
    requires
        0 <= k <= cs.len(),
    ensures
        candidates_size(cs.take(k)) <= candidates_size(cs),
    decreases cs.len() - k,
{
    if k < cs.len() {
        lemma_candidates_size_prefix(cs, k + 1);
        assert(cs.take(k + 1).drop_last() =~= cs.take(k));
    } else {
        assert(cs.take(k) =~= cs);
    }
}

/// Builds plans from the candidates the user selected. Never executes anything.
pub struct CleanupPlanner;

impl CleanupPlanner {
    pub fn new() -> (p: CleanupPlanner) {
        CleanupPlanner
    }

    /// A plan holding exactly the selected candidates, in order.
    pub fn plan(&self, selected: Vec<CleanupCandidate>) -> (p: CleanupPlan)
        ensures
            p.candidates == selected,
    {
        CleanupPlan { candidates: selected }
    }
}

/// Why a path was not cleaned up.
#[derive(Debug, Clone)]
pub enum CleanupError {
    /// The canonical path is inside a protected system root.
    ProtectedPath(FsPath),
    /// The candidate is marked never to be deleted automatically.
    NeverAutoDelete(FsPath),
    /// The path no longer exists: the scan is stale.
    StaleTarget(FsPath),
    /// The path could not be canonicalized.
    Io(String),
    /// Moving the path to the trash failed.
    Trash(String),
    /// The path was moved to the trash, but the action could not be given an
    /// identifier or a time to be recorded under.
    Unrecorded(FsPath),
}

/// Where the cleanup of one path of one candidate stands.
#[derive(Debug)]
pub enum PathCleanup {
    /// Waiting to learn whether `path` still exists.
    AwaitExists { category_id: String, path: FsPath },
    /// Waiting for the canonical form of `path`.
    AwaitCanonical { category_id: String, path: FsPath },
    /// Waiting to learn whether `canonical` is a protected root.
    AwaitProtection { category_id: String, canonical: FsPath },
    /// Waiting for `canonical` to be measured and moved to the trash.
    AwaitTrash { category_id: String, canonical: FsPath },
    /// Nothing more to do.
    Finished,
}

/// What the caller must do next for the path the cleanup is about.
#[derive(Debug)]
pub enum CleanupStep {
    /// Report whether the path (`AwaitExists::path`) exists.
    CheckExists,
    /// Canonicalize the path (`AwaitCanonical::path`) and report the result.
    Canonicalize,
    /// Ask the platform whether `AwaitProtection::canonical` is a protected root.
    CheckProtected,
    /// Measure `AwaitTrash::canonical`, move it to the trash, report both.
    MoveToTrash,
    /// The path is done: cleaned up, or refused with the reason.
    Done(Result<CleanupAction, CleanupError>),
}

/// The outcome of the step the caller performed.
#[derive(Debug)]
pub enum CleanupEvent {
    Exists(bool),
    Canonicalized(Result<FsPath, String>),
    Protection(bool),
    Trashed { bytes_freed: u64, outcome: Result<(), String> },
}

/// The state a path starts in.
pub open spec fn start_state(safety: SafetyLevel, category_id: String, path: FsPath) -> PathCleanup {
    if safety == SafetyLevel::NeverAutoDelete {
        PathCleanup::Finished
    } else {
        PathCleanup::AwaitExists { category_id, path }
    }
}

/// Whether `e` answers the question `job` is waiting on.
pub open spec fn answers(job: PathCleanup, e: CleanupEvent) -> bool {
    match (job, e) {
        (PathCleanup::AwaitExists { .. }, CleanupEvent::Exists(_)) => true,
        (PathCleanup::AwaitCanonical { .. }, CleanupEvent::Canonicalized(_)) => true,
        (PathCleanup::AwaitProtection { .. }, CleanupEvent::Protection(_)) => true,
        (PathCleanup::AwaitTrash { .. }, CleanupEvent::Trashed { .. }) => true,
        _ => false,
    }
}

/// The state after `e` answers `job`.
pub open spec fn next_state(job: PathCleanup, e: CleanupEvent) -> PathCleanup {
    match (job, e) {
        (PathCleanup::AwaitExists { category_id, path }, CleanupEvent::Exists(true)) => {
            PathCleanup::AwaitCanonical { category_id, path }
        },
        (PathCleanup::AwaitCanonical { category_id, .. }, CleanupEvent::Canonicalized(Ok(c))) => {
            PathCleanup::AwaitProtection { category_id, canonical: c }
        },
        (PathCleanup::AwaitProtection { category_id, canonical }, CleanupEvent::Protection(false)) => {
            PathCleanup::AwaitTrash { category_id, canonical }
        },
        _ => PathCleanup::Finished,
    }
}

/// The state after a sequence of answers.
pub open spec fn state_after(start: PathCleanup, events: Seq<CleanupEvent>) -> PathCleanup
    decreases events.len(),
{
    if events.len() == 0 {
        start
    } else {
        next_state(state_after(start, events.drop_last()), events.last())
    }
}

/// The step a state that is not finished asks for.
pub open spec fn asks_for(job: PathCleanup, step: CleanupStep) -> bool {
    match job {
        PathCleanup::AwaitExists { .. } => step is CheckExists,
        PathCleanup::AwaitCanonical { .. } => step is Canonicalize,
        PathCleanup::AwaitProtection { .. } => step is CheckProtected,
        PathCleanup::AwaitTrash { .. } => step is MoveToTrash,
        PathCleanup::Finished => false,
    }
}

/// The result reported when answer `e` finishes `job`.
pub open spec fn finished_with(job: PathCleanup, e: CleanupEvent, r: Result<CleanupAction, CleanupError>) -> bool {
    match (job, e) {
        (PathCleanup::AwaitExists { path, .. }, CleanupEvent::Exists(false)) => r == Err::<
            CleanupAction,
            CleanupError,
        >(CleanupError::StaleTarget(path)),
        (PathCleanup::AwaitCanonical { .. }, CleanupEvent::Canonicalized(Err(msg))) => r == Err::<
            CleanupAction,
            CleanupError,
        >(CleanupError::Io(msg)),
        (PathCleanup::AwaitProtection { canonical, .. }, CleanupEvent::Protection(true)) => r
            == Err::<CleanupAction, CleanupError>(CleanupError::ProtectedPath(canonical)),
        (
            PathCleanup::AwaitTrash { category_id, canonical },
            CleanupEvent::Trashed { bytes_freed, outcome },
        ) => match outcome {
            Err(msg) => r == Err::<CleanupAction, CleanupError>(CleanupError::Trash(msg)),
            Ok(_) => (r matches Ok(a) && a.category_id == category_id && a.paths@ == seq![canonical]
                && a.bytes_freed == bytes_freed && a.undoable) || r == Err::<CleanupAction, CleanupError>(
                CleanupError::Unrecorded(canonical),
            ),
        },
        _ => false,
    }
}

/// Decides, one step at a time, whether each path of a candidate may be moved
/// to the trash.
pub struct CleanupExecutor;

impl CleanupExecutor {
    pub fn new() -> (e: CleanupExecutor) {
        CleanupExecutor
    }

    /// Starts the cleanup of one path of `candidate`: a candidate marked
    /// never-auto-delete is refused at once, any other path first has its
    /// existence checked.
    pub fn begin(&self, candidate: &CleanupCandidate, path: FsPath) -> (r: (PathCleanup, CleanupStep))
        ensures
            r.0 == start_state(candidate.safety, candidate.category_id, path),
            candidate.safety == SafetyLevel::NeverAutoDelete ==> r.1 == CleanupStep::Done(
                Err::<CleanupAction, CleanupError>(CleanupError::NeverAutoDelete(path)),
            ),
            candidate.safety != SafetyLevel::NeverAutoDelete ==> r.1 is CheckExists,
    {
        if candidate.safety == SafetyLevel::NeverAutoDelete {
            (PathCleanup::Finished, CleanupStep::Done(Err(CleanupError::NeverAutoDelete(path))))
        } else {
            (
                PathCleanup::AwaitExists { category_id: candidate.category_id.clone(), path },
                CleanupStep::CheckExists,
            )
        }
    }

    /// The result of moving `canonical` to the trash, given the trash's
    /// outcome and the identifier and time drawn for the record: the failure
    /// when the move failed; otherwise the recorded action -- exactly when both
    /// an identifier and a time were had -- and `Unrecorded` only when one of
    /// them is missing, whatever the size moved.
    pub fn record_trashed(
        &self,
        category_id: String,
        canonical: FsPath,
        bytes_freed: u64,
        outcome: Result<(), String>,
        id: Option<u128>,
        performed_at: Option<Timestamp>,
    ) -> (r: Result<CleanupAction, CleanupError>)
        ensures
            outcome matches Err(msg) ==> r == Err::<CleanupAction, CleanupError>(CleanupError::Trash(msg)),
            outcome is Ok && id is Some && performed_at is Some ==> (r matches Ok(a) && a.id == id->0
                && a.performed_at == performed_at->0 && a.category_id == category_id && a.paths@ == seq![
                canonical] && a.bytes_freed == bytes_freed && a.undoable),
            outcome is Ok && (id is None || performed_at is None) ==> r == Err::<
                CleanupAction,
                CleanupError,
            >(CleanupError::Unrecorded(canonical)),
    {
        match outcome {
            Ok(()) => match (id, performed_at) {
                (Some(id), Some(performed_at)) => {
                    let mut paths: Vec<FsPath> = Vec::new();
                    paths.push(canonical);
                    Ok(CleanupAction { id, performed_at, category_id, paths, bytes_freed, undoable: true })
                },
                _ => Err(CleanupError::Unrecorded(canonical)),
            },
            Err(msg) => Err(CleanupError::Trash(msg)),
        }
    }

    /// Takes the answer to the step last asked for and decides the next one.
    pub fn step(&self, job: PathCleanup, event: CleanupEvent) -> (r: (PathCleanup, CleanupStep))
        requires
            answers(job, event),
        ensures
            r.0 == next_state(job, event),
            !(r.0 is Finished) ==> asks_for(r.0, r.1),
            r.0 is Finished ==> (r.1 matches CleanupStep::Done(res) && finished_with(job, event, res)),
    {
        match (job, event) {
            (PathCleanup::AwaitExists { category_id, path }, CleanupEvent::Exists(exists)) => {
                if exists {
                    (PathCleanup::AwaitCanonical { category_id, path }, CleanupStep::Canonicalize)
                } else {
                    (PathCleanup::Finished, CleanupStep::Done(Err(CleanupError::StaleTarget(path))))
                }
            },
            (PathCleanup::AwaitCanonical { category_id, .. }, CleanupEvent::Canonicalized(res)) => {
                match res {
                    Ok(c) => (
                        PathCleanup::AwaitProtection { category_id, canonical: c },
                        CleanupStep::CheckProtected,
                    ),
                    Err(msg) => (PathCleanup::Finished, CleanupStep::Done(Err(CleanupError::Io(msg)))),
                }
            },
            (
                PathCleanup::AwaitProtection { category_id, canonical },
                CleanupEvent::Protection(protected),
            ) => {
                if protected {
                    (
                        PathCleanup::Finished,
                        CleanupStep::Done(Err(CleanupError::ProtectedPath(canonical))),
                    )
                } else {
                    (PathCleanup::AwaitTrash { category_id, canonical }, CleanupStep::MoveToTrash)
                }
            },
            (
                PathCleanup::AwaitTrash { category_id, canonical },
                CleanupEvent::Trashed { bytes_freed, outcome },
            ) => {
                let result = self.record_trashed(category_id, canonical, bytes_freed, outcome, new_id(), now());
                (PathCleanup::Finished, CleanupStep::Done(result))
            },
            (job, _) => {
                proof {
                    assert(false);
                }
                (job, CleanupStep::CheckExists)
            },
        }
    }
}

/// A path is only ever moved to the trash after it was confirmed to exist,
/// was canonicalized to exactly the path being trashed, and that canonical
/// path was confirmed not to be protected -- and never for a candidate marked
/// never-auto-delete.
pub proof fn law_trash_only_after_checks(
    safety: SafetyLevel,
    category_id: String,
    path: FsPath,
    events: Seq<CleanupEvent>,
)
    requires
        state_after(start_state(safety, category_id, path), events) is AwaitTrash,
    ensures
        safety != SafetyLevel::NeverAutoDelete,
        events.len() == 3,
        events[0] == CleanupEvent::Exists(true),
        events[1] == CleanupEvent::Canonicalized(
            Ok::<FsPath, String>(
                state_after(start_state(safety, category_id, path), events)->AwaitTrash_canonical,
            ),
        ),
        events[2] == CleanupEvent::Protection(false),
{
    lemma_state_shape(safety, category_id, path, events);
}

/// Which answers lead to each state.
proof fn lemma_state_shape(safety: SafetyLevel, category_id: String, path: FsPath, events: Seq<CleanupEvent>)
    ensures
        ({
            let st = state_after(start_state(safety, category_id, path), events);
            &&& st is AwaitExists ==> events.len() == 0 && safety != SafetyLevel::NeverAutoDelete
            &&& st is AwaitCanonical ==> events.len() == 1 && safety != SafetyLevel::NeverAutoDelete
                && events[0] == CleanupEvent::Exists(true)
            &&& st matches PathCleanup::AwaitProtection { canonical, .. } ==> events.len() == 2
                && safety != SafetyLevel::NeverAutoDelete && events[0] == CleanupEvent::Exists(true)
                && events[1] == CleanupEvent::Canonicalized(Ok::<FsPath, String>(canonical))
            &&& st matches PathCleanup::AwaitTrash { canonical, .. } ==> events.len() == 3
                && safety != SafetyLevel::NeverAutoDelete && events[0] == CleanupEvent::Exists(true)
                && events[1] == CleanupEvent::Canonicalized(Ok::<FsPath, String>(canonical))
                && events[2] == CleanupEvent::Protection(false)
        }),
    decreases events.len(),
{
    if events.len() > 0 {
        lemma_state_shape(safety, category_id, path, events.drop_last());
        let prev = events.drop_last();
        if events.len() >= 2 {
            assert(events[0] == prev[0]);
        }
        if events.len() >= 3 {
            assert(events[1] == prev[1]);
        }
    }
}

} // verus!
