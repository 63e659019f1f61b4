//! What the recipe machine reports: the verdict on a recipe's `@input`, and the
//! effects of its `@output`.

use vstd::prelude::*;

verus! {

/// The verb a recipe binds a slot with.
#[derive(Clone, Copy, Debug, PartialEq, Eq, Structural)]
pub enum Hold {
    Use,
    Claim,
    Share,
    Borrow,
}

/// One effect of a recipe, over slot paths and definition paths.
#[derive(Debug, PartialEq, Eq)]
pub enum VmEffect {
    /// Remove the card at `slot`.
    Destroy { slot: String },
    /// Spawn a `def` card in the container `target`.
    Create { def: String, target: String },
    /// Change a stock aspect of `slot`: to `delta` if `abs`, else by `delta`.
    Stock { slot: String, aspect: String, delta: i64, abs: bool },
    /// Unlock the blueprint `def` for `target`.
    Blueprint { def: String, target: String },
}

/// The outcome of matching a recipe's `@input` against the bound cards.
#[derive(Debug, PartialEq, Eq)]
pub struct MatchOutcome {
    pub matched: bool,
    /// Slot paths and the verbs they were bound with.
    pub holds: Vec<(String, Hold)>,
}

/// The outcome of running a recipe's `@output`.
#[derive(Debug, PartialEq, Eq)]
pub struct PlanOutcome {
    /// Slot paths and the names of their progress styles.
    pub styles: Vec<(String, String)>,
    pub effects: Vec<VmEffect>,
    pub duration: i64,
}

} // verus!
