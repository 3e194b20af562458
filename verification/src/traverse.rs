//! The choice of how a tree is walked.

use vstd::prelude::*;
use crate::types::TraversalConfig;

verus! {

/// The depth below the root at which a walk stops: deep enough to count as
/// unbounded, and still a bound on a cyclic or pathological tree.
pub const MAX_DEPTH: usize = 100;

/// How a tree is walked.
#[derive(Debug, Clone, Copy, PartialEq, Eq, Structural)]
pub enum Strategy {
    /// In a fixed order, leaving out what the ignore rules match.
    IgnoreAware,
    /// In a fixed order, taking every entry.
    Sequential,
    /// On all cores, taking every entry, in no particular order.
    FlatParallel,
}

impl Strategy {
    /// Two walks of an unchanged tree give the entries in the same order.
    pub open spec fn ordered(self) -> bool {
        self != Strategy::FlatParallel
    }

    /// The walk itself leaves out what the ignore rules match.
    pub open spec fn applies_ignore_rules(self) -> bool {
        self == Strategy::IgnoreAware
    }

    /// Whether two walks of an unchanged tree give the entries in the same
    /// order.
    pub fn is_ordered(self) -> (r: bool)
        ensures
            r == self.ordered(),
    {
        match self {
            Strategy::FlatParallel => false,
            _ => true,
        }
    }
}

/// The strategy for `find`, `list` and `search` under a configuration: the
/// ignore-aware walk where the ignore rules are respected, since only it
/// knows them; else the parallel walk, which is the fastest.
pub fn strategy_for(config: &TraversalConfig) -> (r: Strategy)
    ensures
        r.applies_ignore_rules() == config.respect_ignore_rules,
        r == if config.respect_ignore_rules {
            Strategy::IgnoreAware
        } else {
            Strategy::FlatParallel
        },
{
    if config.respect_ignore_rules {
        Strategy::IgnoreAware
    } else {
        Strategy::FlatParallel
    }
}

/// The strategy for the estimator, whose sample must be the same on every
/// run: an ordered walk that leaves nothing out.
pub fn estimate_strategy() -> (r: Strategy)
    ensures
        r == Strategy::Sequential,
        r.ordered(),
        !r.applies_ignore_rules(),
{
    Strategy::Sequential
}

} // verus!
