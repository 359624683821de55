//! Safety engine: deterministic, rule-based safety levels. A deletion-safety
//! decision is never left to inference.

use vstd::prelude::*;
use crate::model::SafetyLevel;
use crate::path::FsPath;

verus! {

pub struct SafetyEngine;

impl SafetyEngine {
    pub fn new() -> (e: SafetyEngine) {
        SafetyEngine
    }

    /// The safety level of a path. Until deletion-safety rules exist for a
    /// path, it is never offered for automatic deletion.
    pub fn classify(&self, path: &FsPath) -> (r: SafetyLevel)
        ensures
            r == SafetyLevel::NeverAutoDelete,
    {
        SafetyLevel::NeverAutoDelete
    }
}

} // verus!
