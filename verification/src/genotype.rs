//! The genotype protocol: one closed choice over the four generation
//! strategies, each carrying its own state, with a single dispatch for
//! `initialize`, `mutate`, `generate` and `evaluate`.

use vstd::prelude::*;

use crate::desirable_properties::DesirableProperties;
use crate::dungeon::Dungeon;
use crate::evaluation::{evals_wf, scored, weighted_score, EvalKind};
use crate::list_of_walls::ListOfWalls;
use crate::random_seed::RandomSeed;
use crate::wall_patterns::WallPatterns;

verus! {

/// One candidate individual: the strategy it follows and the encoded
/// state that strategy evolves.
#[derive(Debug)]
pub enum Genotype {
    RandomSeed(RandomSeed),
    ListOfWalls(ListOfWalls),
    WallPatterns(WallPatterns),
    DesirableProperties(DesirableProperties),
}

impl Genotype {
    /// Whether a blank genotype may be initialized.
    pub open spec fn init_ready(self) -> bool {
        match self {
            Genotype::RandomSeed(g) => g.seed.wf(),
            Genotype::ListOfWalls(g) => g.wf() && g.seed.tiles.has_name("entrance"@)
                && g.seed.tiles.has_name("exit"@) && g.seed.width + g.seed.height >= 5,
            Genotype::WallPatterns(g) => g.wf(),
            Genotype::DesirableProperties(g) => g.wf(),
        }
    }

    /// Whether the genotype is fully formed, so that `generate` and
    /// `mutate` may run.
    pub open spec fn ready(self) -> bool {
        match self {
            Genotype::RandomSeed(g) => g.rolled(),
            Genotype::ListOfWalls(g) => g.wf() && g.seed.tiles.has_name("entrance"@)
                && g.seed.tiles.has_name("exit"@) && g.seed.width + g.seed.height >= 5,
            Genotype::WallPatterns(g) => g.rolled(),
            Genotype::DesirableProperties(g) => g.wf(),
        }
    }

    /// The grid width the genotype generates.
    pub open spec fn width_spec(self) -> int {
        match self {
            Genotype::RandomSeed(g) => g.seed.width as int,
            Genotype::ListOfWalls(g) => g.seed.width as int,
            Genotype::WallPatterns(g) => g.seed.width as int,
            Genotype::DesirableProperties(g) => g.seed.width as int,
        }
    }

    /// The grid height the genotype generates.
    pub open spec fn height_spec(self) -> int {
        match self {
            Genotype::RandomSeed(g) => g.seed.height as int,
            Genotype::ListOfWalls(g) => g.seed.height as int,
            Genotype::WallPatterns(g) => g.seed.height as int,
            Genotype::DesirableProperties(g) => g.seed.height as int,
        }
    }

    /// What the strategy's phenotype looks like, cell for cell.
    pub open spec fn phenotype_matches(self, d: Dungeon) -> bool {
        match self {
            Genotype::RandomSeed(g) => g.phenotype_matches(d),
            Genotype::ListOfWalls(g) => g.phenotype_matches(d),
            Genotype::WallPatterns(g) => g.phenotype_matches(d),
            Genotype::DesirableProperties(g) => g.phenotype_matches(d),
        }
    }

    /// Produce a fully formed random individual.
    pub fn initialize(&self, rng: &mut rand::rngs::StdRng) -> (r: Genotype)
        requires
            self.init_ready(),
        ensures
            r.ready(),
    {
        match self {
            Genotype::RandomSeed(g) => Genotype::RandomSeed(g.initialize(rng)),
            Genotype::ListOfWalls(g) => Genotype::ListOfWalls(g.initialize(rng)),
            Genotype::WallPatterns(g) => Genotype::WallPatterns(g.initialize(rng)),
            Genotype::DesirableProperties(g) => Genotype::DesirableProperties(g.initialize(rng)),
        }
    }

    /// Perturb a fraction of the genotype's discrete components. The
    /// baseline strategy and the room-and-maze strategy keep this a
    /// no-op, as their reference behavior has it.
    pub fn mutate(&mut self, rng: &mut rand::rngs::StdRng, percentage: u32)
        requires
            old(self).ready(),
            percentage <= 100,
        ensures
            final(self).ready(),
            same_strategy(*final(self), *old(self)),
            final(self).width_spec() == old(self).width_spec(),
            final(self).height_spec() == old(self).height_spec(),
    {
        match self {
            Genotype::RandomSeed(_) => {},
            Genotype::ListOfWalls(g) => {
                g.mutate(rng, percentage);
            },
            Genotype::WallPatterns(g) => {
                g.mutate(rng, percentage);
            },
            Genotype::DesirableProperties(g) => {
                g.mutate(rng, percentage);
            },
        }
    }

    /// Map the genotype to its grid: a pure, deterministic function of
    /// the genotype's state.
    pub fn generate(&self) -> (d: Dungeon)
        requires
            self.ready(),
        ensures
            d.wf(),
            self.phenotype_matches(d),
    {
        match self {
            Genotype::RandomSeed(g) => g.generate(),
            Genotype::ListOfWalls(g) => g.generate(),
            Genotype::WallPatterns(g) => g.generate(),
            Genotype::DesirableProperties(g) => g.generate(),
        }
    }

    /// Score a phenotype as the weighted sum of the configured
    /// evaluators.
    pub fn evaluate(&self, dungeon: &Dungeon, strategies: &Vec<(EvalKind, i64)>) -> (r: i64)
        requires
            dungeon.wf(),
            evals_wf(strategies@),
        ensures
            scored(*dungeon, strategies@, r as int),
    {
        weighted_score(dungeon, strategies)
    }
}

impl Clone for Genotype {
    fn clone(&self) -> (r: Self)
        ensures
            self.ready() ==> r.ready(),
            same_strategy(r, *self),
            r.width_spec() == self.width_spec(),
            r.height_spec() == self.height_spec(),
    {
        match self {
            Genotype::RandomSeed(g) => Genotype::RandomSeed(g.clone()),
            Genotype::ListOfWalls(g) => Genotype::ListOfWalls(g.clone()),
            Genotype::WallPatterns(g) => Genotype::WallPatterns(g.clone()),
            Genotype::DesirableProperties(g) => Genotype::DesirableProperties(g.clone()),
        }
    }
}

/// Whether two genotypes follow the same strategy.
pub open spec fn same_strategy(a: Genotype, b: Genotype) -> bool {
    match (a, b) {
        (Genotype::RandomSeed(_), Genotype::RandomSeed(_)) => true,
        (Genotype::ListOfWalls(_), Genotype::ListOfWalls(_)) => true,
        (Genotype::WallPatterns(_), Genotype::WallPatterns(_)) => true,
        (Genotype::DesirableProperties(_), Genotype::DesirableProperties(_)) => true,
        _ => false,
    }
}

/// Whatever the strategy, two phenotypes of one genotype hold the same
/// contents, cell for cell: `generate` is reproducible.
pub proof fn lemma_genotype_reproducible(g: Genotype, d1: Dungeon, d2: Dungeon)
    requires
        g.phenotype_matches(d1),
        g.phenotype_matches(d2),
    ensures
        d1.same_contents(d2),
{
    match g {
        Genotype::RandomSeed(s) => {
            crate::random_seed::lemma_random_seed_reproducible(s, d1, d2);
        },
        Genotype::ListOfWalls(s) => {
            crate::list_of_walls::lemma_list_of_walls_reproducible(s, d1, d2);
        },
        Genotype::WallPatterns(s) => {
            crate::wall_patterns::lemma_wall_patterns_reproducible(s, d1, d2);
        },
        Genotype::DesirableProperties(s) => {
            crate::desirable_properties::lemma_desirable_properties_reproducible(s, d1, d2);
        },
    }
}

} // verus!
