//! A strategy tiling the dungeon with stamped rectangular templates.
//!
//! The genotype is a list of indices into a fixed library of patterns;
//! `generate` covers the grid with the chosen patterns, inverting the
//! row axis to match the drawing convention, then stands pre-rolled
//! occupants on floor cells.

use vstd::prelude::*;

use crate::celloption::{CellOption, Occupant, Tile};
use crate::cell::CellView;
use crate::dungeon::Dungeon;
use crate::list_of_walls::stand_occupants;
use crate::phenotype::Seed;
use crate::rng::index_below;

verus! {

/// One stamp template: a flattened grid of optional tiles.
#[derive(Debug)]
pub struct Pattern {
    pub pattern: Vec<Option<Tile>>,
}

/// The first tile a symbol mapping assigns to a character.
pub open spec fn mapping_lookup(mapping: Seq<(char, Tile)>, c: char) -> Option<Tile>
    decreases mapping.len(),
{
    if mapping.len() == 0 {
        None
    } else if mapping.first().0 == c {
        Some(mapping.first().1)
    } else {
        mapping_lookup(mapping.drop_first(), c)
    }
}

impl Pattern {
    /// Parse a stamp from its drawing: one line per template row, one
    /// character per cell, each mapped to a tile or, when the symbol is
    /// unknown, to no tile at all.
    pub fn from_config(
        mapping: &Vec<(char, Tile)>,
        description: &Vec<String>,
        width: u32,
        height: u32,
    ) -> (r: Pattern)
        requires
            description@.len() == height,
            forall|li: int| 0 <= li < height ==> (#[trigger] description@[li])@.len() == width,
            width <= 0xFFFF,
            height <= 0xFFFF,
        ensures
            r.pattern@.len() == width * height,
            forall|li: int, ci: int|
                0 <= li < height && 0 <= ci < width ==> #[trigger] r.pattern@[li * width + ci]
                    == mapping_lookup(mapping@, description@[li]@[ci]),
    {
        let mut pattern: Vec<Option<Tile>> = Vec::new();
        let mut li: u32 = 0;
        while li < height
            invariant
                li <= height,
                width <= 0xFFFF,
                height <= 0xFFFF,
                description@.len() == height,
                forall|l: int| 0 <= l < height ==> (#[trigger] description@[l])@.len() == width,
                pattern@.len() == li * width,
                forall|l: int, c: int|
                    0 <= l < li && 0 <= c < width ==> #[trigger] pattern@[l * width + c]
                        == mapping_lookup(mapping@, description@[l]@[c]),
            decreases height - li,
        {
            let line: &String = &description[li as usize];
            let mut ci: u32 = 0;
            while ci < width
                invariant
                    li < height,
                    ci <= width,
                    width <= 0xFFFF,
                    height <= 0xFFFF,
                    description@.len() == height,
                    forall|l: int| 0 <= l < height ==> (#[trigger] description@[l])@.len() == width,
                    line@ == description@[li as int]@,
                    pattern@.len() == li * width + ci,
                    forall|l: int, c: int|
                        0 <= l < li && 0 <= c < width ==> #[trigger] pattern@[l * width + c]
                            == mapping_lookup(mapping@, description@[l]@[c]),
                    forall|c: int|
                        0 <= c < ci ==> #[trigger] pattern@[li as int * width + c]
                            == mapping_lookup(mapping@, description@[li as int]@[c]),
                decreases width - ci,
            {
                proof {
                    assert((li as int) * (width as int) + ci <= 0xFFFF * 0xFFFF + 0xFFFF)
                        by (nonlinear_arith)
                        requires
                            0 <= (li as int) && (li as int) <= 0xFFFF,
                            0 <= (ci as int) && (ci as int) <= 0xFFFF,
                            0 <= (width as int) && (width as int) <= 0xFFFF,
                    ;
                }
                let ch = line.as_str().get_char(ci as usize);
                let t = lookup_char(mapping, ch);
                pattern.push(t);
                proof {
                    assert forall|l: int, c: int|
                        (0 <= l < li && 0 <= c < width) || (l == li && 0 <= c < ci + 1) implies
                        #[trigger] pattern@[l * width + c] == mapping_lookup(
                        mapping@,
                        description@[l]@[c],
                    ) by {
                        assert(0 <= l * width + c < pattern@.len()) by (nonlinear_arith)
                            requires
                                0 <= l,
                                0 <= c < width,
                                (l < li && pattern@.len() == (li as int) * width + ci + 1) || (l
                                    == li && c < ci + 1 && pattern@.len() == (li as int) * width
                                    + ci + 1),
                        ;
                        if l < li || c < ci {
                            assert(l * width + c < (li as int) * width + ci) by (nonlinear_arith)
                                requires
                                    0 <= l,
                                    0 <= c < width,
                                    (l < li && 0 <= c < width) || (l == li && c < ci),
                            ;
                        } else {
                            assert(l == li && c == ci);
                        }
                    }
                }
                ci = ci + 1;
            }
            proof {
                assert((li as int) * width + width == ((li as int) + 1) * width)
                    by (nonlinear_arith);
            }
            li = li + 1;
        }
        proof {
            assert((height as int) * (width as int) == (width as int) * (height as int))
                by (nonlinear_arith);
        }
        Pattern { pattern }
    }
}

/// The first tile mapped to a character, scanned in order.
fn lookup_char(mapping: &Vec<(char, Tile)>, c: char) -> (r: Option<Tile>)
    ensures
        r == mapping_lookup(mapping@, c),
{
    let mut k: usize = 0;
    proof {
        assert(mapping@.skip(0) =~= mapping@);
    }
    while k < mapping.len()
        invariant
            k <= mapping@.len(),
            mapping_lookup(mapping@, c) == mapping_lookup(mapping@.skip(k as int), c),
        decreases mapping@.len() - k,
    {
        let (mc, mt) = (&mapping[k].0, &mapping[k].1);
        proof {
            assert(mapping@.skip(k as int).first() == mapping@[k as int]);
            assert(mapping@.skip(k as int).drop_first() =~= mapping@.skip(k as int + 1));
        }
        if *mc == c {
            return Some(mt.clone());
        }
        k = k + 1;
    }
    proof {
        assert(mapping@.skip(mapping@.len() as int).len() == 0);
    }
    None
}

impl Clone for Pattern {
    fn clone(&self) -> (r: Self)
        ensures
            r.pattern@ == self.pattern@,
    {
        let mut pattern: Vec<Option<Tile>> = Vec::new();
        let mut k: usize = 0;
        while k < self.pattern.len()
            invariant
                k <= self.pattern@.len(),
                pattern@.len() == k,
                forall|i: int| 0 <= i < k ==> pattern@[i] == self.pattern@[i],
            decreases self.pattern@.len() - k,
        {
            let t: Option<Tile> = match &self.pattern[k] {
                None => None,
                Some(t) => Some(t.clone()),
            };
            pattern.push(t);
            k = k + 1;
        }
        proof {
            assert(pattern@ =~= self.pattern@);
        }
        Pattern { pattern }
    }
}

/// A genotype choosing which template covers which region of the grid.
#[derive(Debug)]
pub struct WallPatterns {
    pub seed: Seed,
    pub patterns: Vec<Pattern>,
    pub pattern_width: u32,
    pub pattern_height: u32,
    pub indices: Vec<usize>,
    pub occupants: Vec<(Occupant, (u32, u32))>,
}

impl WallPatterns {
    /// The library is not empty, every template covers its full
    /// rectangle, and the pre-rolled occupants lie on the grid.
    pub open spec fn wf(self) -> bool {
        &&& self.seed.wf()
        &&& self.patterns@.len() > 0
        &&& self.patterns@.len() <= 0xFFFF
        &&& 1 <= self.pattern_width <= 0xFFFF
        &&& 1 <= self.pattern_height <= 0xFFFF
        &&& (forall|k: int|
            0 <= k < self.patterns@.len() ==> (#[trigger] self.patterns@[k]).pattern@.len()
                == self.pattern_width * self.pattern_height)
        &&& (forall|k: int|
            0 <= k < self.occupants@.len() ==> (#[trigger] self.occupants@[k]).1.0
                < self.seed.width && self.occupants@[k].1.1 < self.seed.height
                && self.seed.occupants.contains_tag(self.occupants@[k].0))
    }

    /// The indices have been rolled: one per pattern, each naming a
    /// pattern of the library.
    pub open spec fn rolled(self) -> bool {
        &&& self.wf()
        &&& self.indices@.len() == self.patterns@.len()
        &&& (forall|k: int|
            0 <= k < self.indices@.len() ==> (#[trigger] self.indices@[k]) < self.patterns@.len())
    }

    /// The tile stamped at `(i, j)`: the grid is carved into template
    /// rectangles, the chosen template of each rectangle supplies the
    /// cell, with the template's rows read bottom-up.
    pub open spec fn pattern_tile(self, i: int, j: int) -> Option<Seq<char>> {
        let pw = self.pattern_width as int;
        let ph = self.pattern_height as int;
        let n = self.patterns@.len() as int;
        let rx = i / pw;
        let inner_x = i % pw;
        let ry = j / ph;
        let index = self.indices@[(ry * pw + rx) % n];
        let inner_y = ph - (j % ph) - 1;
        let ti = inner_y * pw + inner_x;
        match self.patterns@[index as int].pattern@[ti] {
            None => None,
            Some(t) => Some(t.name_spec()),
        }
    }

    /// The tile grid of this genotype's phenotype, one entry for each
    /// cell its templates actually stamp.
    pub open spec fn tile_grid(self) -> Map<(int, int), Seq<char>> {
        Map::new(
            |p: (int, int)|
                0 <= p.0 < self.seed.width && 0 <= p.1 < self.seed.height && self.pattern_tile(
                    p.0,
                    p.1,
                ) is Some,
            |p: (int, int)| self.pattern_tile(p.0, p.1)->0,
        )
    }

    /// The occupant grid of this genotype's phenotype.
    pub open spec fn occupant_grid(self) -> Map<(int, int), Seq<char>> {
        stand_occupants(self.tile_grid(), self.occupants@, self.occupants@.len() as int)
    }

    /// What the phenotype of this genotype looks like, cell for cell.
    pub open spec fn phenotype_matches(self, d: Dungeon) -> bool {
        &&& d.wf()
        &&& d.width == self.seed.width
        &&& d.height == self.seed.height
        &&& (forall|x: int, y: int|
            0 <= x < d.width && 0 <= y < d.height ==> #[trigger] d.cell_at(x, y) == (CellView {
                x,
                y,
                tile: self.pattern_tile(x, y),
                occupant: (if self.occupant_grid().contains_key((x, y)) {
                    Some(self.occupant_grid()[(x, y)])
                } else {
                    None
                }),
                items: Seq::<Seq<char>>::empty(),
            }))
    }

    /// A blank genotype around a seed and a parsed template library,
    /// with no indices rolled yet.
    pub fn new(
        seed: &Seed,
        patterns: Vec<Pattern>,
        pattern_width: u32,
        pattern_height: u32,
    ) -> (r: WallPatterns)
        requires
            seed.wf(),
            patterns@.len() > 0,
            patterns@.len() <= 0xFFFF,
            1 <= pattern_width <= 0xFFFF,
            1 <= pattern_height <= 0xFFFF,
            forall|k: int|
                0 <= k < patterns@.len() ==> (#[trigger] patterns@[k]).pattern@.len()
                    == pattern_width * pattern_height,
        ensures
            r.wf(),
            r.seed.width == seed.width,
            r.seed.height == seed.height,
            r.indices@.len() == 0,
            r.occupants@.len() == 0,
    {
        WallPatterns {
            seed: seed.clone(),
            patterns,
            pattern_width,
            pattern_height,
            indices: Vec::new(),
            occupants: Vec::new(),
        }
    }

    /// Roll a fully formed individual: one random pattern choice per
    /// library slot, and the pre-rolled occupants.
    pub fn initialize(&self, rng: &mut rand::rngs::StdRng) -> (r: WallPatterns)
        requires
            self.wf(),
        ensures
            r.rolled(),
            r.seed.width == self.seed.width,
            r.seed.height == self.seed.height,
            r.patterns@.len() == self.patterns@.len(),
            forall|k: int|
                0 <= k < r.patterns@.len() ==> (#[trigger] r.patterns@[k]).pattern@
                    == self.patterns@[k].pattern@,
            r.pattern_width == self.pattern_width,
            r.pattern_height == self.pattern_height,
    {
        let n = self.patterns.len();
        let mut indices: Vec<usize> = Vec::new();
        let mut k: usize = 0;
        while k < n
            invariant
                k <= n,
                n == self.patterns@.len(),
                n > 0,
                indices@.len() == k,
                forall|i: int| 0 <= i < k ==> (#[trigger] indices@[i]) < n,
            decreases n - k,
        {
            indices.push(index_below(rng, n));
            k = k + 1;
        }
        let occupants = self.seed.random_occupants(rng);
        WallPatterns {
            seed: self.seed.clone(),
            patterns: self.clone_patterns(),
            pattern_width: self.pattern_width,
            pattern_height: self.pattern_height,
            indices,
            occupants,
        }
    }

    /// Randomly reassign a fraction of the pattern choices and re-roll
    /// the occupants.
    pub fn mutate(&mut self, rng: &mut rand::rngs::StdRng, percentage: u32)
        requires
            old(self).rolled(),
            percentage <= 100,
        ensures
            final(self).rolled(),
            final(self).seed.width == old(self).seed.width,
            final(self).seed.height == old(self).seed.height,
            final(self).patterns@.len() == old(self).patterns@.len(),
            final(self).pattern_width == old(self).pattern_width,
            final(self).pattern_height == old(self).pattern_height,
    {
        let length = self.indices.len();
        proof {
            assert((length as int) * (percentage as int) <= 0xFFFF * 100) by (nonlinear_arith)
                requires
                    0 <= (length as int) && (length as int) <= 0xFFFF,
                    0 <= (percentage as int) && (percentage as int) <= 100,
            ;
        }
        let n: u64 = length as u64 * percentage as u64 / 100;
        let mut k: u64 = 0;
        while k < n
            invariant
                k <= n,
                self.rolled(),
                length == self.indices@.len(),
                length > 0,
                *self == (WallPatterns { indices: self.indices, ..*old(self) }),
            decreases n - k,
        {
            let pos = index_below(rng, length);
            let v = index_below(rng, self.patterns.len());
            self.indices.set(pos, v);
            k = k + 1;
        }
        let occupants = self.seed.random_occupants(rng);
        self.occupants = occupants;
    }

    /// Copy the template library.
    fn clone_patterns(&self) -> (r: Vec<Pattern>)
        ensures
            r@.len() == self.patterns@.len(),
            forall|k: int|
                0 <= k < r@.len() ==> (#[trigger] r@[k]).pattern@ == self.patterns@[k].pattern@,
    {
        let mut r: Vec<Pattern> = Vec::new();
        let mut k: usize = 0;
        while k < self.patterns.len()
            invariant
                k <= self.patterns@.len(),
                r@.len() == k,
                forall|i: int|
                    0 <= i < k ==> (#[trigger] r@[i]).pattern@ == self.patterns@[i].pattern@,
            decreases self.patterns@.len() - k,
        {
            r.push(self.patterns[k].clone());
            k = k + 1;
        }
        r
    }
}

impl WallPatterns {
    /// Map the genotype to its grid: every cell takes its tile from the
    /// template chosen for its rectangle, rows read bottom-up, and the
    /// pre-rolled occupants stand on what shows plain floor.
    pub fn generate(&self) -> (d: Dungeon)
        requires
            self.rolled(),
        ensures
            self.phenotype_matches(d),
    {
        let w = self.seed.width;
        let h = self.seed.height;
        let ghost wi = w as int;
        let ghost hi = h as int;
        let pw = self.pattern_width;
        let ph = self.pattern_height;
        let n = self.patterns.len();
        let mut d = Dungeon::new(w, h, None);
        let mut i: u32 = 0;
        while i < w
            invariant
                self.rolled(),
                w == self.seed.width,
                h == self.seed.height,
                wi == w as int,
                hi == h as int,
                pw == self.pattern_width,
                ph == self.pattern_height,
                n == self.patterns@.len(),
                i <= w,
                d.wf(),
                d.width == w,
                d.height == h,
                forall|x: int, y: int|
                    0 <= x < wi && 0 <= y < hi && x < i ==> #[trigger] d.cell_at(x, y) == (CellView {
                        x,
                        y,
                        tile: self.pattern_tile(x, y),
                        occupant: None,
                        items: Seq::<Seq<char>>::empty(),
                    }),
                forall|x: int, y: int|
                    0 <= x < wi && 0 <= y < hi && x >= i ==> #[trigger] d.cell_at(x, y) == (CellView {
                        x,
                        y,
                        tile: None,
                        occupant: None,
                        items: Seq::<Seq<char>>::empty(),
                    }),
            decreases w - i,
        {
            let mut j: u32 = 0;
            while j < h
                invariant
                    self.rolled(),
                    w == self.seed.width,
                    h == self.seed.height,
                    wi == w as int,
                    hi == h as int,
                    pw == self.pattern_width,
                    ph == self.pattern_height,
                    n == self.patterns@.len(),
                    i < w,
                    j <= h,
                    d.wf(),
                    d.width == w,
                    d.height == h,
                    forall|x: int, y: int|
                        0 <= x < wi && 0 <= y < hi && (x < i || (x == i && y < j))
                            ==> #[trigger] d.cell_at(x, y) == (CellView {
                            x,
                            y,
                            tile: self.pattern_tile(x, y),
                            occupant: None,
                            items: Seq::<Seq<char>>::empty(),
                        }),
                    forall|x: int, y: int|
                        0 <= x < wi && 0 <= y < hi && (x > i || (x == i && y >= j))
                            ==> #[trigger] d.cell_at(x, y) == (CellView {
                            x,
                            y,
                            tile: None,
                            occupant: None,
                            items: Seq::<Seq<char>>::empty(),
                        }),
                decreases h - j,
            {
                let rx = i / pw;
                let inner_x = i % pw;
                let ry = j / ph;
                proof {
                    assert((ry as int) * (pw as int) + (rx as int) <= 0xFFFF * 0xFFFF + 0xFFFF)
                        by (nonlinear_arith)
                        requires
                            0 <= (ry as int) && (ry as int) <= 0xFFFF,
                            0 <= (rx as int) && (rx as int) <= 0xFFFF,
                            0 <= (pw as int) && (pw as int) <= 0xFFFF,
                    ;
                }
                let slot = ((ry as u64 * pw as u64 + rx as u64) % n as u64) as usize;
                let index = self.indices[slot];
                let inner_y = ph - (j % ph) - 1;
                proof {
                    assert((inner_y as int) * (pw as int) + (inner_x as int) < (ph as int) * (
                    pw as int)) by (nonlinear_arith)
                        requires
                            0 <= (inner_y as int) && (inner_y as int) < (ph as int),
                            0 <= (inner_x as int) && (inner_x as int) < (pw as int),
                    ;
                    assert((ph as int) * (pw as int) <= 0xFFFF * 0xFFFF) by (nonlinear_arith)
                        requires
                            0 <= (ph as int) && (ph as int) <= 0xFFFF,
                            0 <= (pw as int) && (pw as int) <= 0xFFFF,
                    ;
                    assert((self.pattern_width as int) * (self.pattern_height as int) == (
                    pw as int) * (ph as int) && (ph as int) * (pw as int) == (pw as int) * (
                    ph as int)) by (nonlinear_arith)
                        requires
                            pw == self.pattern_width,
                            ph == self.pattern_height,
                    ;
                }
                let ti = (inner_y as u64 * pw as u64 + inner_x as u64) as usize;
                match &self.patterns[index].pattern[ti] {
                    None => {},
                    Some(t) => {
                        d.set_tile(i, j, t);
                    },
                }
                proof {
                    assert(d.cell_at(i as int, j as int) == (CellView {
                        x: i as int,
                        y: j as int,
                        tile: self.pattern_tile(i as int, j as int),
                        occupant: None,
                        items: Seq::<Seq<char>>::empty(),
                    }));
                }
                j = j + 1;
            }
            i = i + 1;
        }
        proof {
            assert(stand_occupants(self.tile_grid(), self.occupants@, 0) == Map::<
                (int, int),
                Seq<char>,
            >::empty());
            assert forall|x: int, y: int| 0 <= x < wi && 0 <= y < hi implies #[trigger] d.cell_at(
                x,
                y,
            ).occupant == (if stand_occupants(self.tile_grid(), self.occupants@, 0).contains_key(
                (x, y),
            ) {
                Some(stand_occupants(self.tile_grid(), self.occupants@, 0)[(x, y)])
            } else {
                None
            }) by {
                assert(d.cell_at(x, y).tile == self.pattern_tile(x, y));
                assert(!stand_occupants(self.tile_grid(), self.occupants@, 0).contains_key((x, y)));
            }
        }
        let mut m: usize = 0;
        while m < self.occupants.len()
            invariant
                self.rolled(),
                w == self.seed.width,
                h == self.seed.height,
                wi == w as int,
                hi == h as int,
                m <= self.occupants@.len(),
                d.wf(),
                d.width == w,
                d.height == h,
                forall|x: int, y: int|
                    0 <= x < wi && 0 <= y < hi ==> #[trigger] d.cell_at(x, y).tile
                        == self.pattern_tile(x, y) && d.cell_at(x, y).items == Seq::<
                        Seq<char>,
                    >::empty(),
                forall|x: int, y: int|
                    0 <= x < wi && 0 <= y < hi ==> #[trigger] d.cell_at(x, y).occupant == (if
                    stand_occupants(self.tile_grid(), self.occupants@, m as int).contains_key(
                        (x, y),
                    ) {
                        Some(stand_occupants(self.tile_grid(), self.occupants@, m as int)[(x, y)])
                    } else {
                        None
                    }),
            decreases self.occupants@.len() - m,
        {
            let o = self.occupants[m].0.clone();
            let (ox, oy) = self.occupants[m].1;
            proof {
                assert((o, (ox, oy)) == self.occupants@[m as int]);
            }
            let on_floor = d.has_attribute(ox, oy, "floor");
            if on_floor {
                d.set_occupant(ox, oy, &o);
            }
            proof {
                let p = (ox as int, oy as int);
                assert(d.cell_at(p.0, p.1).tile == self.pattern_tile(p.0, p.1));
                assert(on_floor == (self.tile_grid().contains_key(p) && self.tile_grid()[p]
                    == "floor"@));
                let g2 = stand_occupants(self.tile_grid(), self.occupants@, m as int);
                let gn = stand_occupants(self.tile_grid(), self.occupants@, m as int + 1);
                if on_floor {
                    assert(gn == g2.insert(p, o.name_spec()));
                } else {
                    assert(gn == g2);
                }
                assert forall|x: int, y: int| 0 <= x < wi && 0 <= y < hi implies
                    #[trigger] d.cell_at(x, y).occupant == (if gn.contains_key((x, y)) {
                    Some(gn[(x, y)])
                } else {
                    None
                }) by {}
            }
            m = m + 1;
        }
        proof {
            assert forall|x: int, y: int| 0 <= x < wi && 0 <= y < hi implies #[trigger] d.cell_at(
                x,
                y,
            ) == (CellView {
                x,
                y,
                tile: self.pattern_tile(x, y),
                occupant: (if self.occupant_grid().contains_key((x, y)) {
                    Some(self.occupant_grid()[(x, y)])
                } else {
                    None
                }),
                items: Seq::<Seq<char>>::empty(),
            }) by {
                assert(d.cell_at(x, y).x == x && d.cell_at(x, y).y == y);
            }
        }
        d
    }
}

impl Clone for WallPatterns {
    fn clone(&self) -> (r: Self)
        ensures
            r.seed.width == self.seed.width,
            r.seed.height == self.seed.height,
            r.seed.occupant_chance == self.seed.occupant_chance,
            r.seed.tiles.options_spec() == self.seed.tiles.options_spec(),
            r.seed.items.options_spec() == self.seed.items.options_spec(),
            r.seed.occupants.options_spec() == self.seed.occupants.options_spec(),
            r.patterns@.len() == self.patterns@.len(),
            forall|k: int|
                0 <= k < r.patterns@.len() ==> (#[trigger] r.patterns@[k]).pattern@
                    == self.patterns@[k].pattern@,
            r.pattern_width == self.pattern_width,
            r.pattern_height == self.pattern_height,
            r.indices@ == self.indices@,
            r.occupants@ == self.occupants@,
            self.wf() ==> r.wf(),
            self.rolled() ==> r.rolled(),
    {
        let mut indices: Vec<usize> = Vec::new();
        let mut k: usize = 0;
        while k < self.indices.len()
            invariant
                k <= self.indices@.len(),
                indices@.len() == k,
                forall|i: int| 0 <= i < k ==> indices@[i] == self.indices@[i],
            decreases self.indices@.len() - k,
        {
            indices.push(self.indices[k]);
            k = k + 1;
        }
        proof {
            assert(indices@ =~= self.indices@);
        }
        let mut occupants: Vec<(Occupant, (u32, u32))> = Vec::new();
        let mut m: usize = 0;
        while m < self.occupants.len()
            invariant
                m <= self.occupants@.len(),
                occupants@.len() == m,
                forall|i: int| 0 <= i < m ==> occupants@[i] == self.occupants@[i],
            decreases self.occupants@.len() - m,
        {
            let o = self.occupants[m].0.clone();
            let p = self.occupants[m].1;
            occupants.push((o, p));
            m = m + 1;
        }
        proof {
            assert(occupants@ =~= self.occupants@);
        }
        WallPatterns {
            seed: self.seed.clone(),
            patterns: self.clone_patterns(),
            pattern_width: self.pattern_width,
            pattern_height: self.pattern_height,
            indices,
            occupants,
        }
    }
}

/// Two phenotypes of the same rolled genotype hold the same contents,
/// cell for cell: `generate` is reproducible.
pub proof fn lemma_wall_patterns_reproducible(g: WallPatterns, d1: Dungeon, d2: Dungeon)
    requires
        g.phenotype_matches(d1),
        g.phenotype_matches(d2),
    ensures
        d1.same_contents(d2),
{
}

} // verus!
