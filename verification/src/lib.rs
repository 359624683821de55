//! spacewise_core: the platform-agnostic storage intelligence engine.
//!
//! Pipeline: Scanner -> storage model -> classification -> safety ->
//! recommendation -> cleanup planner -> user approval -> cleanup executor.
//! No stage may skip forward: the scanner never decides what to delete, and a
//! recommendation never executes deletion directly.

pub mod aggregate;
pub mod classification;
pub mod cleanup;
pub mod duplicates;
pub mod history;
pub mod model;
pub mod recommend;
pub mod runtime;
pub mod safety;
pub mod path;
pub mod platform;
pub mod scanner;
pub mod session;
pub mod text;
pub mod uninstall;

use vstd::prelude::*;

verus! {

/// The engine's version and build phase, for the shell's status display.
#[derive(Debug, Clone)]
pub struct CoreStatus {
    pub version: String,
    pub phase: &'static str,
}

/// The current status of the engine.
pub fn status() -> (s: CoreStatus)
    ensures
        s.version@ == "0.1.0"@,
        s.phase@ == "phase-1-architecture"@,
{
    CoreStatus { version: String::from_str("0.1.0"), phase: "phase-1-architecture" }
}

} // verus!
