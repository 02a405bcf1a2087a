//! The immutable record of one executed intent.

use vstd::prelude::*;
use vstd::string::*;

use crate::intent::{Intent, IntentType};

verus! {

/// Projection of an intent after execution, with its outcome.
#[derive(Debug)]
pub struct ExecutedIntent {
    pub intent: IntentType,
    pub subvolume: String,
    pub target: String,
    pub name: String,
    pub success: bool,
}

/// Spec-level shape of an executed intent.
pub struct ExecutedModel {
    pub kind: IntentType,
    pub subvolume: Seq<char>,
    pub target: Seq<char>,
    pub name: Seq<char>,
    pub success: bool,
}

impl View for ExecutedIntent {
    type V = ExecutedModel;

    open spec fn view(&self) -> ExecutedModel {
        ExecutedModel {
            kind: self.intent,
            subvolume: self.subvolume@,
            target: self.target@,
            name: self.name@,
            success: self.success,
        }
    }
}

impl ExecutedIntent {
    /// Records the outcome of executing `intent`.
    pub fn new(intent: &Intent, success: bool) -> (r: Self)
        ensures
            r@.kind == intent@.kind,
            r@.subvolume == intent@.subvolume,
            r@.target == intent@.target,
            r@.name == intent@.name,
            r@.success == success,
    {
        ExecutedIntent {
            intent: intent.intent,
            subvolume: intent.subvolume.clone(),
            target: intent.target.clone(),
            name: intent.name.clone(),
            success,
        }
    }
}

} // verus!
