//! The shared generation parameters and the generated artifact.

use vstd::prelude::*;

use crate::celloption::{CellOption, CellOptions, Item, Occupant, Tile};
use crate::dungeon::Dungeon;
use crate::rng::range_u32;
use crate::statistics::Statistic;
use crate::util::random_occupant;

verus! {

/// Everything a genotype needs to generate a phenotype: the grid
/// dimensions, the three tag catalogs, and the percent chance of an
/// occupant appearing on a floor tile. One seed is shared, read-only,
/// by every individual of a run.
#[derive(Debug)]
pub struct Seed {
    pub width: u32,
    pub height: u32,
    pub tiles: CellOptions<Tile>,
    pub items: CellOptions<Item>,
    pub occupants: CellOptions<Occupant>,
    pub occupant_chance: u32,
}

impl Seed {
    /// The dimensions are grid-sized, the chance is a percentage, and
    /// the tile and occupant catalogs are not empty.
    pub open spec fn wf(self) -> bool {
        &&& 2 <= self.width <= 0xFFFF
        &&& 2 <= self.height <= 0xFFFF
        &&& self.occupant_chance <= 100
        &&& self.tiles.len_spec() > 0
        &&& self.occupants.len_spec() > 0
    }

    /// How many occupants one run of `random_occupants` rolls.
    pub open spec fn occupant_count(self) -> int {
        self.occupant_chance * self.width * self.height / 100
    }

    /// Bundle generation parameters.
    pub fn new(
        width: u32,
        height: u32,
        tiles: CellOptions<Tile>,
        items: CellOptions<Item>,
        occupants: CellOptions<Occupant>,
        occupant_chance: u32,
    ) -> (r: Seed)
        requires
            2 <= width <= 0xFFFF,
            2 <= height <= 0xFFFF,
            occupant_chance <= 100,
            tiles.len_spec() > 0,
            occupants.len_spec() > 0,
        ensures
            r.wf(),
            r.width == width,
            r.height == height,
            r.occupant_chance == occupant_chance,
            r.tiles.options_spec() == tiles.options_spec(),
            r.items.options_spec() == items.options_spec(),
            r.occupants.options_spec() == occupants.options_spec(),
    {
        Seed { width, height, tiles, items, occupants, occupant_chance }
    }

    /// Roll a random occupant for a tile: only floor tiles may be
    /// occupied, and then only with the seed's percent chance.
    pub fn random_occupant(&self, rng: &mut rand::rngs::StdRng, tile: &Tile) -> (r: Option<
        Occupant,
    >)
        requires
            self.wf(),
        ensures
            r is Some ==> tile.name_spec() == "floor"@,
            r is Some ==> self.occupants.contains_tag(r->0),
            tile.name_spec() != "floor"@ ==> r is None,
            self.occupant_chance == 0 ==> r is None,
    {
        random_occupant(rng, tile, &self.occupants, self.occupant_chance as u64)
    }

    /// Roll random occupants on random interior coordinates, as many as
    /// the occupant chance asks for over the whole grid.
    pub fn random_occupants(&self, rng: &mut rand::rngs::StdRng) -> (r: Vec<(Occupant, (u32, u32))>)
        requires
            self.wf(),
        ensures
            r@.len() == self.occupant_count(),
            forall|k: int|
                0 <= k < r@.len() ==> 1 <= (#[trigger] r@[k]).1.0 < self.width && 1 <= r@[k].1.1
                    < self.height,
            forall|k: int|
                0 <= k < r@.len() ==> self.occupants.contains_tag((#[trigger] r@[k]).0),
    {
        proof {
            assert((self.occupant_chance as int) * (self.width as int) <= 100 * 0xFFFF)
                by (nonlinear_arith)
                requires
                    self.occupant_chance <= 100,
                    self.width <= 0xFFFF,
            ;
            assert(((self.occupant_chance as int) * (self.width as int)) * (self.height as int)
                < 0x100_0000_0000) by (nonlinear_arith)
                requires
                    (self.occupant_chance as int) * (self.width as int) <= 100 * 0xFFFF,
                    self.height <= 0xFFFF,
            ;
        }
        let count: u64 = self.occupant_chance as u64 * self.width as u64 * self.height as u64 / 100;
        proof {
            assert(count == self.occupant_count());
        }
        let mut r: Vec<(Occupant, (u32, u32))> = Vec::new();
        let mut k: u64 = 0;
        while k < count
            invariant
                k <= count,
                count == self.occupant_count(),
                r@.len() == k,
                self.wf(),
                forall|j: int|
                    0 <= j < r@.len() ==> 1 <= (#[trigger] r@[j]).1.0 < self.width && 1 <= r@[j].1.1
                        < self.height,
                forall|j: int|
                    0 <= j < r@.len() ==> self.occupants.contains_tag((#[trigger] r@[j]).0),
            decreases count - k,
        {
            let x = range_u32(rng, 1, self.width);
            let y = range_u32(rng, 1, self.height);
            let p = self.occupants.pick(rng);
            let o = p.clone();
            r.push((o, (x, y)));
            proof {
                assert(r@[r@.len() - 1] == (o, (x, y)));
                assert(self.occupants.contains_tag(r@[r@.len() - 1].0));
            }
            k = k + 1;
        }
        r
    }
}

impl Clone for Seed {
    fn clone(&self) -> (r: Self)
        ensures
            r.width == self.width,
            r.height == self.height,
            r.occupant_chance == self.occupant_chance,
            r.tiles.options_spec() == self.tiles.options_spec(),
            r.items.options_spec() == self.items.options_spec(),
            r.occupants.options_spec() == self.occupants.options_spec(),
            self.wf() ==> r.wf(),
    {
        Seed {
            width: self.width,
            height: self.height,
            tiles: self.tiles.clone(),
            items: self.items.clone(),
            occupants: self.occupants.clone(),
            occupant_chance: self.occupant_chance,
        }
    }
}

/// A generated dungeon together with the statistic it earned.
#[derive(Debug)]
pub struct Phenotype {
    pub dungeon: Dungeon,
    pub statistics: Statistic,
}

} // verus!
