//! Settings of the action ranking.
use vstd::prelude::*;

verus! {

/// How many ranked actions to report.
#[derive(Debug, Clone, Copy, PartialEq, Eq, Structural)]
pub struct RankActionsConfig {
    pub limit: usize,
}

} // verus!
