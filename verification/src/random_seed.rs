//! The weakest baseline strategy: every cell gets an independently
//! random tile, and floor cells may get a random occupant.
//!
//! All randomness is resolved when the genotype is initialized, so that
//! `generate` is a pure function of the genotype and repeated calls
//! yield identical grids.

use vstd::prelude::*;

use crate::celloption::{CellOption, Occupant, Tile};
use crate::cell::CellView;
use crate::dungeon::Dungeon;
use crate::phenotype::Seed;

verus! {

/// A genotype holding one pre-rolled tile, and possibly one pre-rolled
/// occupant, for every cell, laid out column by column.
#[derive(Debug)]
pub struct RandomSeed {
    pub seed: Seed,
    pub tiles: Vec<Tile>,
    pub occupants: Vec<Option<Occupant>>,
}

impl RandomSeed {
    /// The rolls cover the grid and come from the seed's catalogs.
    pub open spec fn rolled(self) -> bool {
        &&& self.seed.wf()
        &&& self.tiles@.len() == self.seed.width * self.seed.height
        &&& self.occupants@.len() == self.seed.width * self.seed.height
        &&& (forall|k: int|
            0 <= k < self.tiles@.len() ==> self.seed.tiles.contains_tag(#[trigger] self.tiles@[k]))
        &&& (forall|k: int|
            0 <= k < self.occupants@.len() ==> (#[trigger] self.occupants@[k]) is Some
                ==> self.seed.occupants.contains_tag(self.occupants@[k]->0))
    }

    /// The tile rolled for `(x, y)`.
    pub open spec fn tile_at(self, x: int, y: int) -> Seq<char> {
        self.tiles@[x * self.seed.height + y].name_spec()
    }

    /// The occupant rolled for `(x, y)`, if any.
    pub open spec fn occupant_at(self, x: int, y: int) -> Option<Seq<char>> {
        match self.occupants@[x * self.seed.height + y] {
            None => None,
            Some(o) => Some(o.name_spec()),
        }
    }

    /// What the phenotype of this genotype looks like: cell for cell,
    /// the pre-rolled tile and occupant, and nothing else.
    pub open spec fn phenotype_matches(self, d: Dungeon) -> bool {
        &&& d.wf()
        &&& d.width == self.seed.width
        &&& d.height == self.seed.height
        &&& (forall|x: int, y: int|
            0 <= x < d.width && 0 <= y < d.height ==> #[trigger] d.cell_at(x, y) == (CellView {
                x,
                y,
                tile: Some(self.tile_at(x, y)),
                occupant: self.occupant_at(x, y),
                items: Seq::<Seq<char>>::empty(),
            }))
    }

    /// A blank genotype around a seed, with nothing rolled yet.
    pub fn new(seed: &Seed) -> (r: RandomSeed)
        requires
            seed.wf(),
        ensures
            r.seed.wf(),
            r.seed.width == seed.width,
            r.seed.height == seed.height,
            r.seed.occupant_chance == seed.occupant_chance,
            r.seed.tiles.options_spec() == seed.tiles.options_spec(),
            r.seed.occupants.options_spec() == seed.occupants.options_spec(),
            r.tiles@.len() == 0,
            r.occupants@.len() == 0,
    {
        RandomSeed { seed: seed.clone(), tiles: Vec::new(), occupants: Vec::new() }
    }

    /// Roll every cell's tile, and its occupant where the tile came up
    /// floor, producing a fully formed individual.
    pub fn initialize(&self, rng: &mut rand::rngs::StdRng) -> (r: RandomSeed)
        requires
            self.seed.wf(),
        ensures
            r.rolled(),
            r.seed.width == self.seed.width,
            r.seed.height == self.seed.height,
            r.seed.occupant_chance == self.seed.occupant_chance,
            r.seed.tiles.options_spec() == self.seed.tiles.options_spec(),
            r.seed.occupants.options_spec() == self.seed.occupants.options_spec(),
    {
        proof {
            assert((self.seed.width as int) * (self.seed.height as int) <= 0xFFFF * 0xFFFF)
                by (nonlinear_arith)
                requires
                    0 <= self.seed.width <= 0xFFFF,
                    0 <= self.seed.height <= 0xFFFF,
            ;
        }
        let total: u64 = self.seed.width as u64 * self.seed.height as u64;
        let mut tiles: Vec<Tile> = Vec::new();
        let mut occupants: Vec<Option<Occupant>> = Vec::new();
        let mut k: u64 = 0;
        while k < total
            invariant
                k <= total,
                total == self.seed.width * self.seed.height,
                self.seed.wf(),
                tiles@.len() == k,
                occupants@.len() == k,
                forall|i: int|
                    0 <= i < k ==> self.seed.tiles.contains_tag(#[trigger] tiles@[i]),
                forall|i: int|
                    0 <= i < k ==> (#[trigger] occupants@[i]) is Some
                        ==> self.seed.occupants.contains_tag(occupants@[i]->0),
            decreases total - k,
        {
            let t = self.seed.tiles.pick(rng).clone();
            let o = self.seed.random_occupant(rng, &t);
            tiles.push(t);
            occupants.push(o);
            k = k + 1;
        }
        RandomSeed { seed: self.seed.clone(), tiles, occupants }
    }

    /// Map the genotype to its grid: a deterministic stamping of the
    /// pre-rolled tiles and occupants.
    pub fn generate(&self) -> (d: Dungeon)
        requires
            self.rolled(),
        ensures
            self.phenotype_matches(d),
    {
        let w = self.seed.width;
        let h = self.seed.height;
        let mut d = Dungeon::new(w, h, None);
        let mut i: u32 = 0;
        while i < w
            invariant
                self.rolled(),
                w == self.seed.width,
                h == self.seed.height,
                i <= w,
                d.wf(),
                d.width == w,
                d.height == h,
                forall|x: int, y: int|
                    0 <= x < i && 0 <= y < h ==> #[trigger] d.cell_at(x, y) == (CellView {
                        x,
                        y,
                        tile: Some(self.tile_at(x, y)),
                        occupant: self.occupant_at(x, y),
                        items: Seq::<Seq<char>>::empty(),
                    }),
                forall|x: int, y: int|
                    i <= x < w && 0 <= y < h ==> #[trigger] d.cell_at(x, y) == (CellView {
                        x,
                        y,
                        tile: None,
                        occupant: None,
                        items: Seq::<Seq<char>>::empty(),
                    }),
            decreases w - i,
        {
            let mut j: u32 = 0;
            while j < h
                invariant
                    self.rolled(),
                    w == self.seed.width,
                    h == self.seed.height,
                    i < w,
                    j <= h,
                    d.wf(),
                    d.width == w,
                    d.height == h,
                    forall|x: int, y: int|
                        0 <= x < w && 0 <= y < h && (x < i || (x == i && y < j))
                            ==> #[trigger] d.cell_at(x, y) == (CellView {
                            x,
                            y,
                            tile: Some(self.tile_at(x, y)),
                            occupant: self.occupant_at(x, y),
                            items: Seq::<Seq<char>>::empty(),
                        }),
                    forall|x: int, y: int|
                        0 <= x < w && 0 <= y < h && (x > i || (x == i && y >= j))
                            ==> #[trigger] d.cell_at(x, y) == (CellView {
                            x,
                            y,
                            tile: None,
                            occupant: None,
                            items: Seq::<Seq<char>>::empty(),
                        }),
                decreases h - j,
            {
                proof {
                    assert((i as int) * (h as int) + j < (w as int) * (h as int))
                        by (nonlinear_arith)
                        requires
                            0 <= (i as int) && (i as int) < (w as int),
                            0 <= (j as int) && (j as int) < (h as int),
                    ;
                    assert((i as int) * (h as int) <= 0xFFFF * 0xFFFF) by (nonlinear_arith)
                        requires
                            0 <= (i as int) && (i as int) <= 0xFFFF,
                            0 <= (h as int) && (h as int) <= 0xFFFF,
                    ;
                    assert((w as int) * (h as int) <= 0xFFFF * 0xFFFF) by (nonlinear_arith)
                        requires
                            0 <= (w as int) && (w as int) <= 0xFFFF,
                            0 <= (h as int) && (h as int) <= 0xFFFF,
                    ;
                }
                let idx = (i as u64 * h as u64 + j as u64) as usize;
                let t = &self.tiles[idx];
                d.set_tile(i, j, t);
                match &self.occupants[idx] {
                    None => {},
                    Some(o) => {
                        d.set_occupant(i, j, o);
                    },
                }
                proof {
                    assert(d.cell_at(i as int, j as int) == (CellView {
                        x: i as int,
                        y: j as int,
                        tile: Some(self.tile_at(i as int, j as int)),
                        occupant: self.occupant_at(i as int, j as int),
                        items: Seq::<Seq<char>>::empty(),
                    }));
                }
                j = j + 1;
            }
            i = i + 1;
        }
        d
    }
}

impl Clone for RandomSeed {
    fn clone(&self) -> (r: Self)
        ensures
            r.seed.width == self.seed.width,
            r.seed.height == self.seed.height,
            r.seed.occupant_chance == self.seed.occupant_chance,
            r.seed.tiles.options_spec() == self.seed.tiles.options_spec(),
            r.seed.items.options_spec() == self.seed.items.options_spec(),
            r.seed.occupants.options_spec() == self.seed.occupants.options_spec(),
            r.tiles@ == self.tiles@,
            r.occupants@ == self.occupants@,
            self.seed.wf() ==> r.seed.wf(),
            self.rolled() ==> r.rolled(),
    {
        let mut tiles: Vec<Tile> = Vec::new();
        let mut k: usize = 0;
        while k < self.tiles.len()
            invariant
                k <= self.tiles@.len(),
                tiles@.len() == k,
                forall|i: int| 0 <= i < k ==> tiles@[i] == self.tiles@[i],
            decreases self.tiles@.len() - k,
        {
            tiles.push(self.tiles[k].clone());
            k = k + 1;
        }
        proof {
            assert(tiles@ =~= self.tiles@);
        }
        let mut occupants: Vec<Option<Occupant>> = Vec::new();
        let mut m: usize = 0;
        while m < self.occupants.len()
            invariant
                m <= self.occupants@.len(),
                occupants@.len() == m,
                forall|i: int| 0 <= i < m ==> occupants@[i] == self.occupants@[i],
            decreases self.occupants@.len() - m,
        {
            let o: Option<Occupant> = match &self.occupants[m] {
                None => None,
                Some(o) => Some(o.clone()),
            };
            occupants.push(o);
            m = m + 1;
        }
        proof {
            assert(occupants@ =~= self.occupants@);
        }
        RandomSeed { seed: self.seed.clone(), tiles, occupants }
    }
}

/// Two phenotypes of the same rolled genotype hold the same contents,
/// cell for cell: `generate` is reproducible.
pub proof fn lemma_random_seed_reproducible(g: RandomSeed, d1: Dungeon, d2: Dungeon)
    requires
        g.phenotype_matches(d1),
        g.phenotype_matches(d2),
    ensures
        d1.same_contents(d2),
{
}

} // verus!
