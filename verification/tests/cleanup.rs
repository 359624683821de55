use spacewise_core::cleanup::{
    CleanupError, CleanupEvent, CleanupExecutor, CleanupPlanner, CleanupStep, PathCleanup,
};
use spacewise_core::model::{CleanupAction, CleanupCandidate, SafetyLevel};
use spacewise_core::path::FsPath;
use std::path::{Component, Path, PathBuf};

fn to_fs(path: &Path) -> FsPath {
    let mut root = String::new();
    let mut parts = Vec::new();
    for c in path.components() {
        match c {
            Component::Prefix(p) => root.push_str(&p.as_os_str().to_string_lossy()),
            Component::RootDir => root.push(std::path::MAIN_SEPARATOR),
            other => parts.push(other.as_os_str().to_string_lossy().into_owned()),
        }
    }
    FsPath::new(root, parts)
}

fn to_std(path: &FsPath) -> PathBuf {
    let mut p = PathBuf::from(&path.root);
    for part in &path.parts {
        p.push(part);
    }
    p
}

fn candidate(paths: Vec<FsPath>, safety: SafetyLevel) -> CleanupCandidate {
    CleanupCandidate {
        id: 1,
        category_id: "test".to_string(),
        display_name: "Test".to_string(),
        total_size: 0,
        paths,
        safety,
    }
}

/// Runs the executor against the real filesystem, with a fixed list of
/// protected roots and a trash that always succeeds without touching anything.
fn execute(c: &CleanupCandidate, protected: &[PathBuf]) -> Vec<Result<CleanupAction, CleanupError>> {
    let executor = CleanupExecutor::new();
    let mut results = Vec::new();
    for path in &c.paths {
        let (mut job, mut step) = executor.begin(c, path.clone());
        loop {
            let event = match step {
                CleanupStep::Done(r) => {
                    results.push(r);
                    break;
                }
                CleanupStep::CheckExists => match &job {
                    PathCleanup::AwaitExists { path, .. } => CleanupEvent::Exists(to_std(path).exists()),
                    _ => unreachable!(),
                },
                CleanupStep::Canonicalize => match &job {
                    PathCleanup::AwaitCanonical { path, .. } => CleanupEvent::Canonicalized(
                        to_std(path).canonicalize().map(|p| to_fs(&p)).map_err(|e| e.to_string()),
                    ),
                    _ => unreachable!(),
                },
                CleanupStep::CheckProtected => match &job {
                    PathCleanup::AwaitProtection { canonical, .. } => {
                        CleanupEvent::Protection(protected.iter().any(|p| to_std(canonical) == *p))
                    }
                    _ => unreachable!(),
                },
                CleanupStep::MoveToTrash => CleanupEvent::Trashed { bytes_freed: 0, outcome: Ok(()) },
            };
            let (next_job, next_step) = executor.step(job, event);
            job = next_job;
            step = next_step;
        }
    }
    results
}

#[test]
fn refuses_to_delete_never_auto_delete_items() {
    let dir = tempfile::tempdir().unwrap();
    let c = candidate(vec![to_fs(dir.path())], SafetyLevel::NeverAutoDelete);
    let results = execute(&c, &[]);
    assert!(matches!(results[0], Err(CleanupError::NeverAutoDelete(_))));
}

#[test]
fn refuses_to_delete_protected_roots_even_if_marked_safe() {
    let dir = tempfile::tempdir().unwrap();
    let protected = vec![dir.path().canonicalize().unwrap()];
    let c = candidate(vec![to_fs(dir.path())], SafetyLevel::Safe);
    let results = execute(&c, &protected);
    assert!(matches!(results[0], Err(CleanupError::ProtectedPath(_))));
}

#[test]
fn refuses_stale_targets_that_no_longer_exist() {
    let c = candidate(vec![to_fs(Path::new("/definitely/does/not/exist/anywhere"))], SafetyLevel::Safe);
    let results = execute(&c, &[]);
    assert!(matches!(results[0], Err(CleanupError::StaleTarget(_))));
}

#[test]
fn an_unprotected_existing_path_is_trashed_under_its_canonical_name() {
    let dir = tempfile::tempdir().unwrap();
    let c = candidate(vec![to_fs(dir.path())], SafetyLevel::Review);
    let results = execute(&c, &[]);
    let action = results[0].as_ref().expect("cleaned up");
    assert_eq!(action.category_id, "test");
    assert!(action.undoable);
    assert_eq!(action.paths.len(), 1);
    assert_eq!(to_std(&action.paths[0]), dir.path().canonicalize().unwrap());
}

#[test]
fn every_path_of_a_candidate_gets_its_own_result() {
    let dir = tempfile::tempdir().unwrap();
    let c = candidate(
        vec![to_fs(dir.path()), to_fs(Path::new("/definitely/does/not/exist/anywhere"))],
        SafetyLevel::Safe,
    );
    let results = execute(&c, &[]);
    assert_eq!(results.len(), 2);
    assert!(results[0].is_ok());
    assert!(matches!(results[1], Err(CleanupError::StaleTarget(_))));
}

#[test]
fn a_failed_canonicalization_is_an_io_error() {
    let executor = CleanupExecutor::new();
    let c = candidate(vec![], SafetyLevel::Safe);
    let (job, step) = executor.begin(&c, FsPath::new("/".to_string(), vec!["x".to_string()]));
    assert!(matches!(step, CleanupStep::CheckExists));
    let (job, step) = executor.step(job, CleanupEvent::Exists(true));
    assert!(matches!(step, CleanupStep::Canonicalize));
    let (_, step) = executor.step(job, CleanupEvent::Canonicalized(Err("denied".to_string())));
    match step {
        CleanupStep::Done(Err(CleanupError::Io(msg))) => assert_eq!(msg, "denied"),
        _ => panic!("expected an I/O error"),
    }
}

#[test]
fn a_failed_trash_move_is_a_trash_error_and_success_reports_the_bytes() {
    let executor = CleanupExecutor::new();
    let c = candidate(vec![], SafetyLevel::Safe);
    let target = FsPath::new("/".to_string(), vec!["tmp".to_string(), "cache".to_string()]);
    let run = |outcome: Result<(), String>| {
        let (job, _) = executor.begin(&c, target.clone());
        let (job, _) = executor.step(job, CleanupEvent::Exists(true));
        let (job, _) = executor.step(job, CleanupEvent::Canonicalized(Ok(target.clone())));
        let (job, step) = executor.step(job, CleanupEvent::Protection(false));
        assert!(matches!(step, CleanupStep::MoveToTrash));
        executor.step(job, CleanupEvent::Trashed { bytes_freed: 4096, outcome }).1
    };
    match run(Err("bin full".to_string())) {
        CleanupStep::Done(Err(CleanupError::Trash(msg))) => assert_eq!(msg, "bin full"),
        _ => panic!("expected a trash error"),
    }
    match run(Ok(())) {
        CleanupStep::Done(Ok(a)) => assert_eq!(a.bytes_freed, 4096),
        _ => panic!("expected success"),
    }
}

#[test]
fn a_plan_keeps_the_selection_and_sums_its_sizes() {
    let mut a = candidate(vec![], SafetyLevel::Safe);
    a.total_size = 300;
    let mut b = candidate(vec![], SafetyLevel::Review);
    b.total_size = 45;
    let plan = CleanupPlanner::new().plan(vec![a, b]);
    assert_eq!(plan.candidates.len(), 2);
    assert_eq!(plan.total_size(), 345);
}
