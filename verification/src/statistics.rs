//! Per-individual metadata for the evolutionary engine.

use vstd::prelude::*;

verus! {

/// The generation at which an individual was scored and the fitness it
/// earned. Fitness is an integer score; higher is better. A fitness of
/// `-1` marks an individual not yet evaluated this generation.
#[derive(Clone, Copy, Debug, PartialEq, Eq, Structural)]
pub struct Statistic {
    pub iteration: u32,
    pub fitness: i64,
}

impl Statistic {
    /// A statistic for an individual scored now.
    pub fn new(iteration: u32, fitness: i64) -> (r: Statistic)
        ensures
            r.iteration == iteration,
            r.fitness == fitness,
    {
        Statistic { iteration, fitness }
    }

    /// The statistic of an individual not yet evaluated.
    pub fn empty() -> (r: Statistic)
        ensures
            r.iteration == 0,
            r.fitness == -1,
    {
        Statistic { iteration: 0, fitness: -1 }
    }
}

} // verus!
