use vstd::prelude::*;
use crate::data::HazardMultiplier;

verus! {

/// Configuration of the pathfinding system.
#[derive(Debug, Copy, Clone, PartialEq, Eq, Structural)]
pub struct Configuration {
    /// Hazard multipliers.
    pub hazard: HazardMultiplier,
    /// Effectively infinite cost, in hundredths of a cost unit: large enough
    /// that no real route reaches it, finite so that sums cannot overflow.
    /// It marks impassable positions.
    pub cost_inf: u64,
    /// Longest time a search may run, in milliseconds.
    pub timeout_millis: u64,
}

impl Configuration {
    /// The default configuration: default hazards, an infinite cost of
    /// 100,000 units and a two-second budget.
    pub fn new() -> (r: Configuration)
        ensures
            r.hazard == (HazardMultiplier { unknown: 10, non_solid: 21, solid: 10, dangerous: 50 }),
            r.cost_inf == 10_000_000,
            r.timeout_millis == 2000,
    {
        Configuration { hazard: HazardMultiplier::new(), cost_inf: 10_000_000, timeout_millis: 2000 }
    }
}

} // verus!
