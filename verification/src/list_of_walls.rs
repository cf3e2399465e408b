//! A strategy drawing random line-segment walls over a floor.
//!
//! The genotype is a list of wall descriptors: a start, a run length
//! bounded by the grid diagonal, a step direction, and possibly a door
//! somewhere along the run. `generate` fills the grid with floor, walks
//! each wall stamping wall tiles (or its one door tile), stamps the
//! entrance and exit, and finally stands pre-rolled occupants on cells
//! still showing plain floor.

use vstd::prelude::*;

use crate::celloption::{CellOption, Occupant};
use crate::cell::CellView;
use crate::dungeon::Dungeon;
use crate::phenotype::Seed;
use crate::rng::{index_below, range_u32};
use crate::util::odds;

verus! {

/// One wall: a start, a length, a step in `{-1,0,1}` per axis, and
/// possibly a door at some position along the run.
#[derive(Debug)]
pub struct Wall {
    pub x: u32,
    pub y: u32,
    pub length: usize,
    pub xstep: i32,
    pub ystep: i32,
    pub door: Option<(i64, i64)>,
}

impl Wall {
    /// The start is inside the grid, the steps are unit steps, and the
    /// length is bounded by the grid diagonal.
    pub open spec fn wf(self) -> bool {
        &&& 1 <= self.x <= 0xFFFF
        &&& 1 <= self.y <= 0xFFFF
        &&& 2 <= self.length <= 0x4_0000
        &&& -1 <= self.xstep <= 1
        &&& -1 <= self.ystep <= 1
    }
}

/// A wall fits its grid: the start is strictly inside, the length is
/// bounded by the grid diagonal, and the door, if any, lies on the
/// wall's ray at a step short of its length.
pub open spec fn wall_fits(wall: Wall, width: int, height: int) -> bool {
    &&& 1 <= wall.x < width
    &&& 1 <= wall.y < height
    &&& 2 <= wall.length
    &&& (wall.length * wall.length) <= width * width + height * height
    &&& (wall.door is Some ==> exists|dist: int|
        1 <= dist < wall.length && ((wall.door->0).0 as int) == wall.x + wall.xstep * dist && ((
        wall.door->0).1 as int) == wall.y + #[trigger] (wall.ystep * dist))
}

/// How many positions two equally long wall lists disagree on.
pub open spec fn num_changed(a: Seq<Wall>, b: Seq<Wall>) -> int
    decreases b.len(),
{
    if b.len() == 0 || a.len() != b.len() {
        0
    } else {
        num_changed(a.drop_last(), b.drop_last()) + (if a.last() == b.last() {
            0int
        } else {
            1int
        })
    }
}

/// A list never disagrees with itself.
pub proof fn lemma_num_changed_refl(a: Seq<Wall>)
    ensures
        num_changed(a, a) == 0,
    decreases a.len(),
{
    if a.len() > 0 {
        lemma_num_changed_refl(a.drop_last());
    }
}

/// Overwriting one position adds at most one disagreement.
pub proof fn lemma_num_changed_update(a: Seq<Wall>, b: Seq<Wall>, i: int, w: Wall)
    requires
        a.len() == b.len(),
        0 <= i < b.len(),
    ensures
        num_changed(a, b.update(i, w)) <= num_changed(a, b) + 1,
        num_changed(a, b.update(i, w)) >= 0,
        num_changed(a, b) >= 0,
    decreases b.len(),
{
    lemma_num_changed_nonneg(a, b);
    lemma_num_changed_nonneg(a, b.update(i, w));
    if i == b.len() - 1 {
        assert(b.update(i, w).drop_last() =~= b.drop_last());
    } else {
        assert(b.update(i, w).drop_last() =~= b.drop_last().update(i, w));
        assert(b.update(i, w).last() == b.last());
        lemma_num_changed_update(a.drop_last(), b.drop_last(), i, w);
    }
}

/// Disagreement counts are never negative.
pub proof fn lemma_num_changed_nonneg(a: Seq<Wall>, b: Seq<Wall>)
    ensures
        num_changed(a, b) >= 0,
    decreases b.len(),
{
    if b.len() > 0 && a.len() == b.len() {
        lemma_num_changed_nonneg(a.drop_last(), b.drop_last());
    }
}

impl Clone for Wall {
    fn clone(&self) -> (r: Self)
        ensures
            r == *self,
    {
        Wall {
            x: self.x,
            y: self.y,
            length: self.length,
            xstep: self.xstep,
            ystep: self.ystep,
            door: match self.door {
                None => None,
                Some(p) => Some(p),
            },
        }
    }
}

/// The integer square root, rounded down.
pub fn isqrt(v: u64) -> (r: u64)
    requires
        v < 0x4_0000_0000,
    ensures
        r * r <= v,
        (r + 1) * (r + 1) > v,
        r <= 0x2_0000,
{
    let mut r: u64 = 0;
    loop
        invariant
            v < 0x4_0000_0000,
            r * r <= v,
            r <= 0x2_0000,
        ensures
            r * r <= v,
            (r + 1) * (r + 1) > v,
            r <= 0x2_0000,
        decreases v - r * r,
    {
        proof {
            assert((r + 1) * (r + 1) <= 0x8_0000_0000) by (nonlinear_arith)
                requires
                    0 <= r <= 0x2_0000,
            ;
        }
        let next = r + 1;
        if next * next > v {
            break;
        }
        proof {
            assert(next * next > r * r) by (nonlinear_arith)
                requires
                    next == r + 1,
                    r >= 0,
            ;
            assert(next <= 0x2_0000) by (nonlinear_arith)
                requires
                    next * next <= v,
                    v < 0x4_0000_0000,
                    next >= 1,
            ;
        }
        r = next;
    }
    r
}

impl Wall {
    /// Roll a fresh wall: a random interior start, a random unit step,
    /// a random length up to the grid diagonal, and a door at a random
    /// position along the run with the given percent chance.
    pub fn random(
        rng: &mut rand::rngs::StdRng,
        width: u32,
        height: u32,
        door_chance: u64,
    ) -> (r: Wall)
        requires
            2 <= width <= 0xFFFF,
            2 <= height <= 0xFFFF,
            width + height >= 5,
        ensures
            r.wf(),
            wall_fits(r, width as int, height as int),
    {
        let x = range_u32(rng, 1, width);
        let y = range_u32(rng, 1, height);
        proof {
            assert((width as int) * (width as int) <= 0xFFFF * 0xFFFF) by (nonlinear_arith)
                requires
                    0 <= (width as int) && (width as int) <= 0xFFFF,
            ;
            assert((height as int) * (height as int) <= 0xFFFF * 0xFFFF) by (nonlinear_arith)
                requires
                    0 <= (height as int) && (height as int) <= 0xFFFF,
            ;
            assert((width as int) * (width as int) + (height as int) * (height as int) >= 13)
                by (nonlinear_arith)
                requires
                    2 <= (width as int),
                    2 <= (height as int),
                    (width as int) + (height as int) >= 5,
            ;
        }
        let v: u64 = width as u64 * width as u64 + height as u64 * height as u64;
        let n = isqrt(v);
        proof {
            assert(n > 2) by (nonlinear_arith)
                requires
                    ((n as int) + 1) * ((n as int) + 1) > 13,
                    n >= 0,
            ;
        }
        let length = range_u64(rng, 2, n) as usize;
        let xstep: i32 = range_i32(rng, -1, 2);
        let ystep: i32 = range_i32(rng, -1, 2);
        let has_door = odds(rng, door_chance, 100);
        let ghost mut gdist: int = 0;
        let door: Option<(i64, i64)> = if has_door {
            let distance = range_u64(rng, 1, length as u64) as i64;
            proof {
                gdist = distance as int;
            }
            proof {
                assert((xstep as int) * (distance as int) <= 0x4_0000 && (xstep as int) * (
                distance as int) >= -0x4_0000) by (nonlinear_arith)
                    requires
                        -1 <= (xstep as int) && (xstep as int) <= 1,
                        0 <= (distance as int) && (distance as int) <= 0x4_0000,
                ;
                assert((ystep as int) * (distance as int) <= 0x4_0000 && (ystep as int) * (
                distance as int) >= -0x4_0000) by (nonlinear_arith)
                    requires
                        -1 <= (ystep as int) && (ystep as int) <= 1,
                        0 <= (distance as int) && (distance as int) <= 0x4_0000,
                ;
            }
            let door_x = x as i64 + xstep as i64 * distance;
            let door_y = y as i64 + ystep as i64 * distance;
            proof {
                assert(1 <= gdist < length as int);
                assert(door_x as int == x + xstep * gdist);
                assert(door_y as int == y + ystep * gdist);
            }
            Some((door_x, door_y))
        } else {
            None
        };
        proof {
            assert((length as int) * (length as int) <= ((n as int) - 1) * ((n as int) - 1))
                by (nonlinear_arith)
                requires
                    2 <= (length as int) && (length as int) <= (n as int) - 1,
            ;
            assert(((n as int) - 1) * ((n as int) - 1) <= (n as int) * (n as int))
                by (nonlinear_arith)
                requires
                    (n as int) >= 1,
            ;
            assert((length as int) * (length as int) <= (width as int) * (width as int) + (
            height as int) * (height as int));
            if door is Some {
                assert((door->0).0 as int == x + xstep * gdist && (door->0).1 as int == y + (ystep
                    * gdist));
            }
        }
        Wall { x, y, length, xstep, ystep, door }
    }
}

/// Draw a value in `[lo, hi)`.
fn range_u64(rng: &mut rand::rngs::StdRng, lo: u64, hi: u64) -> (r: u64)
    requires
        lo < hi,
    ensures
        lo <= r < hi,
{
    let d = crate::rng::rng_below(rng, hi - lo);
    lo + d
}

/// Draw a value in `[lo, hi)`.
fn range_i32(rng: &mut rand::rngs::StdRng, lo: i32, hi: i32) -> (r: i32)
    requires
        -0x1000 <= lo < hi <= 0x1000,
    ensures
        lo <= r < hi,
{
    let span = hi as i64 - lo as i64;
    let d = crate::rng::rng_below(rng, span as u64);
    lo + d as i32
}

/// The tile a wall stamps at a position: its door where the door sits,
/// plain wall everywhere else.
pub open spec fn wall_tile_for(wall: Wall, px: int, py: int) -> Seq<char> {
    if wall.door == Some((px as i64, py as i64)) {
        "door"@
    } else {
        "wall"@
    }
}

/// The tile grid after walking the first `k` steps of one wall.
pub open spec fn stamp_wall(
    g: Map<(int, int), Seq<char>>,
    w: int,
    h: int,
    wall: Wall,
    k: int,
) -> Map<(int, int), Seq<char>>
    decreases k,
{
    if k <= 0 {
        g
    } else {
        let g2 = stamp_wall(g, w, h, wall, k - 1);
        let px = wall.x + wall.xstep * k;
        let py = wall.y + wall.ystep * k;
        if 0 <= px < w && 0 <= py < h {
            g2.insert((px, py), wall_tile_for(wall, px, py))
        } else {
            g2
        }
    }
}

/// The tile grid after drawing the first `n` walls.
pub open spec fn stamp_walls(
    g: Map<(int, int), Seq<char>>,
    w: int,
    h: int,
    walls: Seq<Wall>,
    n: int,
) -> Map<(int, int), Seq<char>>
    decreases n,
{
    if n <= 0 {
        g
    } else {
        stamp_wall(stamp_walls(g, w, h, walls, n - 1), w, h, walls[n - 1], walls[n - 1].length as int)
    }
}

/// A grid of plain floor.
pub open spec fn floor_grid(w: int, h: int) -> Map<(int, int), Seq<char>> {
    Map::new(|p: (int, int)| 0 <= p.0 < w && 0 <= p.1 < h, |p: (int, int)| "floor"@)
}

/// Stamp one named tile, if a place for it was chosen.
pub open spec fn stamp_point(
    g: Map<(int, int), Seq<char>>,
    at: Option<(u32, u32)>,
    name: Seq<char>,
) -> Map<(int, int), Seq<char>> {
    match at {
        None => g,
        Some(p) => g.insert((p.0 as int, p.1 as int), name),
    }
}

/// The occupants standing on the grid after the first `n` pre-rolled
/// occupants were offered a place: one stands only where the tile grid
/// shows plain floor, and a later roll on the same cell replaces an
/// earlier one.
pub open spec fn stand_occupants(
    tiles: Map<(int, int), Seq<char>>,
    occs: Seq<(Occupant, (u32, u32))>,
    n: int,
) -> Map<(int, int), Seq<char>>
    decreases n,
{
    if n <= 0 {
        Map::empty()
    } else {
        let g2 = stand_occupants(tiles, occs, n - 1);
        let p = ((occs[n - 1].1).0 as int, (occs[n - 1].1).1 as int);
        if tiles.contains_key(p) && tiles[p] == "floor"@ {
            g2.insert(p, occs[n - 1].0.name_spec())
        } else {
            g2
        }
    }
}

/// A genotype of random walls over a floor: the wall list, the chosen
/// entrance and exit, and the pre-rolled occupants.
#[derive(Debug)]
pub struct ListOfWalls {
    pub seed: Seed,
    pub walls: Vec<Wall>,
    pub coverage_pct: u32,
    pub door_chance_pct: u32,
    pub entrance: Option<(u32, u32)>,
    pub exit: Option<(u32, u32)>,
    pub occupants: Vec<(Occupant, (u32, u32))>,
}

impl ListOfWalls {
    /// The parameters are percentages, every wall is well formed, the
    /// chosen entrance and exit lie on the grid, and the seed's tile
    /// catalog holds every tile `generate` stamps.
    pub open spec fn wf(self) -> bool {
        &&& self.seed.wf()
        &&& self.coverage_pct < 100
        &&& self.door_chance_pct <= 100
        &&& self.walls@.len() <= 0x1_0000_0000
        &&& self.seed.tiles.has_name("floor"@)
        &&& self.seed.tiles.has_name("wall"@)
        &&& self.seed.tiles.has_name("door"@)
        &&& (forall|k: int|
            0 <= k < self.walls@.len() ==> (#[trigger] self.walls@[k]).wf() && wall_fits(
                self.walls@[k],
                self.seed.width as int,
                self.seed.height as int,
            ))
        &&& (self.entrance is Some ==> self.seed.tiles.has_name("entrance"@) && (self.entrance->0).0
            < self.seed.width && (self.entrance->0).1 < self.seed.height)
        &&& (self.exit is Some ==> self.seed.tiles.has_name("exit"@) && (self.exit->0).0
            < self.seed.width && (self.exit->0).1 < self.seed.height)
        &&& (forall|k: int|
            0 <= k < self.occupants@.len() ==> (#[trigger] self.occupants@[k]).1.0
                < self.seed.width && self.occupants@[k].1.1 < self.seed.height
                && self.seed.occupants.contains_tag(self.occupants@[k].0))
    }

    /// The tile grid of this genotype's phenotype.
    pub open spec fn tile_grid(self) -> Map<(int, int), Seq<char>> {
        let w = self.seed.width as int;
        let h = self.seed.height as int;
        stamp_point(
            stamp_point(
                stamp_walls(floor_grid(w, h), w, h, self.walls@, self.walls@.len() as int),
                self.entrance,
                "entrance"@,
            ),
            self.exit,
            "exit"@,
        )
    }

    /// The occupant grid of this genotype's phenotype.
    pub open spec fn occupant_grid(self) -> Map<(int, int), Seq<char>> {
        stand_occupants(self.tile_grid(), self.occupants@, self.occupants@.len() as int)
    }

    /// What the phenotype of this genotype looks like, cell for cell.
    pub open spec fn phenotype_matches(self, d: Dungeon) -> bool {
        &&& d.wf()
        &&& d.width == self.seed.width
        &&& d.height == self.seed.height
        &&& (forall|x: int, y: int|
            0 <= x < d.width && 0 <= y < d.height ==> #[trigger] d.cell_at(x, y) == (CellView {
                x,
                y,
                tile: Some(self.tile_grid()[(x, y)]),
                occupant: (if self.occupant_grid().contains_key((x, y)) {
                    Some(self.occupant_grid()[(x, y)])
                } else {
                    None
                }),
                items: Seq::<Seq<char>>::empty(),
            }))
    }
}

/// A wall walk only ever adds tiles: no key leaves the grid map.
pub proof fn lemma_stamp_wall_dom(
    g: Map<(int, int), Seq<char>>,
    w: int,
    h: int,
    wall: Wall,
    k: int,
    p: (int, int),
)
    requires
        g.contains_key(p),
    ensures
        stamp_wall(g, w, h, wall, k).contains_key(p),
    decreases k,
{
    if k > 0 {
        lemma_stamp_wall_dom(g, w, h, wall, k - 1, p);
    }
}

/// Drawing walls only ever adds tiles: no key leaves the grid map.
pub proof fn lemma_stamp_walls_dom(
    g: Map<(int, int), Seq<char>>,
    w: int,
    h: int,
    walls: Seq<Wall>,
    n: int,
    p: (int, int),
)
    requires
        g.contains_key(p),
    ensures
        stamp_walls(g, w, h, walls, n).contains_key(p),
    decreases n,
{
    if n > 0 {
        lemma_stamp_walls_dom(g, w, h, walls, n - 1, p);
        lemma_stamp_wall_dom(
            stamp_walls(g, w, h, walls, n - 1),
            w,
            h,
            walls[n - 1],
            walls[n - 1].length as int,
            p,
        );
    }
}

/// Every on-grid coordinate has a tile in the genotype's tile grid.
pub proof fn lemma_tile_grid_covers(g: ListOfWalls, p: (int, int))
    requires
        0 <= p.0 < g.seed.width,
        0 <= p.1 < g.seed.height,
    ensures
        g.tile_grid().contains_key(p),
{
    let w = g.seed.width as int;
    let h = g.seed.height as int;
    assert(floor_grid(w, h).contains_key(p));
    lemma_stamp_walls_dom(floor_grid(w, h), w, h, g.walls@, g.walls@.len() as int, p);
}

impl ListOfWalls {
    /// A blank genotype around a seed: no walls, no entrance or exit,
    /// no occupants.
    pub fn new(seed: &Seed, coverage_pct: u32, door_chance_pct: u32) -> (r: ListOfWalls)
        requires
            seed.wf(),
            coverage_pct < 100,
            door_chance_pct <= 100,
            seed.tiles.has_name("floor"@),
            seed.tiles.has_name("wall"@),
            seed.tiles.has_name("door"@),
        ensures
            r.wf(),
            r.seed.width == seed.width,
            r.seed.height == seed.height,
            r.walls@.len() == 0,
            r.entrance is None,
            r.exit is None,
            r.occupants@.len() == 0,
            r.coverage_pct == coverage_pct,
            r.door_chance_pct == door_chance_pct,
    {
        ListOfWalls {
            seed: seed.clone(),
            walls: Vec::new(),
            coverage_pct,
            door_chance_pct,
            entrance: None,
            exit: None,
            occupants: Vec::new(),
        }
    }

    /// Roll a fully formed individual: enough walls to reach the
    /// configured coverage, a random entrance and exit, and the
    /// pre-rolled occupants.
    pub fn initialize(&self, rng: &mut rand::rngs::StdRng) -> (r: ListOfWalls)
        requires
            self.wf(),
            self.seed.tiles.has_name("entrance"@),
            self.seed.tiles.has_name("exit"@),
            self.seed.width + self.seed.height >= 5,
        ensures
            r.wf(),
            r.seed.width == self.seed.width,
            r.seed.height == self.seed.height,
            r.seed.tiles.options_spec() == self.seed.tiles.options_spec(),
            r.walls@.len() == self.seed.width * self.seed.height / (100 - self.coverage_pct),
            r.entrance is Some && 1 <= (r.entrance->0).0 < self.seed.width && 1 <= (
            r.entrance->0).1 < self.seed.height,
            r.exit is Some && 1 <= (r.exit->0).0 < self.seed.width && 1 <= (r.exit->0).1
                < self.seed.height,
    {
        let w = self.seed.width;
        let h = self.seed.height;
        proof {
            assert((w as int) * (h as int) <= 0xFFFF * 0xFFFF) by (nonlinear_arith)
                requires
                    0 <= (w as int) && (w as int) <= 0xFFFF,
                    0 <= (h as int) && (h as int) <= 0xFFFF,
            ;
        }
        let n: u64 = w as u64 * h as u64 / (100 - self.coverage_pct) as u64;
        proof {
            assert(n <= 0x1_0000_0000);
        }
        let mut walls: Vec<Wall> = Vec::new();
        let mut k: u64 = 0;
        while k < n
            invariant
                k <= n,
                self.wf(),
                w == self.seed.width,
                h == self.seed.height,
                w + h >= 5,
                n <= 0x1_0000_0000,
                n == self.seed.width * self.seed.height / (100 - self.coverage_pct),
                walls@.len() == k,
                forall|i: int|
                    0 <= i < walls@.len() ==> (#[trigger] walls@[i]).wf() && wall_fits(
                        walls@[i],
                        w as int,
                        h as int,
                    ),
            decreases n - k,
        {
            let wall = Wall::random(rng, w, h, self.door_chance_pct as u64);
            walls.push(wall);
            k = k + 1;
        }
        let occupants = self.seed.random_occupants(rng);
        let entrance = (range_u32(rng, 1, w), range_u32(rng, 1, h));
        let exit = (range_u32(rng, 1, w), range_u32(rng, 1, h));
        ListOfWalls {
            seed: self.seed.clone(),
            walls,
            coverage_pct: self.coverage_pct,
            door_chance_pct: self.door_chance_pct,
            entrance: Some(entrance),
            exit: Some(exit),
            occupants,
        }
    }

    /// Replace a fraction of the walls with freshly rolled ones and
    /// re-roll the occupants.
    pub fn mutate(&mut self, rng: &mut rand::rngs::StdRng, percentage: u32)
        requires
            old(self).wf(),
            percentage <= 100,
            old(self).seed.width + old(self).seed.height >= 5,
        ensures
            final(self).wf(),
            final(self).seed == old(self).seed,
            final(self).seed.width == old(self).seed.width,
            final(self).seed.height == old(self).seed.height,
            final(self).coverage_pct == old(self).coverage_pct,
            final(self).door_chance_pct == old(self).door_chance_pct,
            final(self).walls@.len() == old(self).walls@.len(),
            final(self).entrance == old(self).entrance,
            final(self).exit == old(self).exit,
            num_changed(old(self).walls@, final(self).walls@) <= old(self).walls@.len()
                * percentage / 100,
    {
        let ghost walls0 = self.walls@;
        proof {
            lemma_num_changed_refl(walls0);
        }
        let w = self.seed.width;
        let h = self.seed.height;
        let length = self.walls.len();
        if length > 0 {
            proof {
                assert((length as int) * (percentage as int) <= 0x1_0000_0000 * 100)
                    by (nonlinear_arith)
                    requires
                        0 <= (length as int) && (length as int) <= 0x1_0000_0000,
                        0 <= (percentage as int) && (percentage as int) <= 100,
                ;
            }
            let n: u64 = length as u64 * percentage as u64 / 100;
            let mut k: u64 = 0;
            while k < n
                invariant
                    k <= n,
                    n == length * percentage / 100,
                    self.wf(),
                    w == self.seed.width,
                    h == self.seed.height,
                    w + h >= 5,
                    0 < length,
                    walls0.len() == length,
                    num_changed(walls0, self.walls@) <= k,
                    self.walls@.len() == length,
                    self.entrance == old(self).entrance,
                    self.exit == old(self).exit,
                    self.seed.width == old(self).seed.width,
                    self.seed.height == old(self).seed.height,
                    self.seed == old(self).seed,
                    self.coverage_pct == old(self).coverage_pct,
                    self.door_chance_pct == old(self).door_chance_pct,
                    self.occupants == old(self).occupants,
                decreases n - k,
            {
                let index = index_below(rng, length);
                let wall = Wall::random(rng, w, h, self.door_chance_pct as u64);
                let ghost pre_walls = self.walls@;
                self.walls.set(index, wall);
                proof {
                    lemma_num_changed_update(walls0, pre_walls, index as int, wall);
                }
                k = k + 1;
            }
        }
        let occupants = self.seed.random_occupants(rng);
        self.occupants = occupants;
    }

    /// Map the genotype to its grid: floor everywhere, the walls drawn
    /// in order with their doors, the entrance and exit stamped, and
    /// the pre-rolled occupants standing on what is still plain floor.
    pub fn generate(&self) -> (d: Dungeon)
        requires
            self.wf(),
        ensures
            self.phenotype_matches(d),
    {
        let w = self.seed.width;
        let h = self.seed.height;
        let ghost wi = w as int;
        let ghost hi = h as int;
        let floor = match self.seed.tiles.get("floor") {
            Some(t) => t.clone(),
            None => {
                proof {
                    assert(false);
                }
                unreached()
            },
        };
        let mut d = Dungeon::new(w, h, Some(floor));
        proof {
            assert forall|x: int, y: int| 0 <= x < wi && 0 <= y < hi implies #[trigger] d.cell_at(
                x,
                y,
            ).tile == Some(floor_grid(wi, hi)[(x, y)]) && d.cell_at(x, y).occupant is None
                && d.cell_at(x, y).items == Seq::<Seq<char>>::empty() by {
                assert(d.cell_at(x, y).tile == Some("floor"@));
            }
        }
        let mut n: usize = 0;
        while n < self.walls.len()
            invariant
                self.wf(),
                w == self.seed.width,
                h == self.seed.height,
                wi == w as int,
                hi == h as int,
                n <= self.walls@.len(),
                d.wf(),
                d.width == w,
                d.height == h,
                forall|x: int, y: int|
                    0 <= x < wi && 0 <= y < hi ==> #[trigger] d.cell_at(x, y).tile == Some(
                        stamp_walls(floor_grid(wi, hi), wi, hi, self.walls@, n as int)[(x, y)],
                    ) && d.cell_at(x, y).occupant is None && d.cell_at(x, y).items == Seq::<
                        Seq<char>,
                    >::empty(),
            decreases self.walls@.len() - n,
        {
            let wall = &self.walls[n];
            let wall_tile = match self.seed.tiles.get("wall") {
                Some(t) => t.clone(),
                None => {
                    proof {
                        assert(false);
                    }
                    unreached()
                },
            };
            let door_tile = match self.seed.tiles.get("door") {
                Some(t) => t.clone(),
                None => {
                    proof {
                        assert(false);
                    }
                    unreached()
                },
            };
            let ghost base = stamp_walls(floor_grid(wi, hi), wi, hi, self.walls@, n as int);
            let mut cx: i64 = wall.x as i64;
            let mut cy: i64 = wall.y as i64;
            let mut k: usize = 0;
            while k < wall.length
                invariant
                    self.wf(),
                    w == self.seed.width,
                    h == self.seed.height,
                    wi == w as int,
                    hi == h as int,
                    n < self.walls@.len(),
                    wall == self.walls@[n as int],
                    wall.wf(),
                    wall_tile.name_spec() == "wall"@,
                    door_tile.name_spec() == "door"@,
                    base == stamp_walls(floor_grid(wi, hi), wi, hi, self.walls@, n as int),
                    k <= wall.length,
                    cx == wall.x + wall.xstep * k,
                    cy == wall.y + wall.ystep * k,
                    -0x8_0000 <= cx <= 0x8_0000,
                    -0x8_0000 <= cy <= 0x8_0000,
                    d.wf(),
                    d.width == w,
                    d.height == h,
                    forall|x: int, y: int|
                        0 <= x < wi && 0 <= y < hi ==> #[trigger] d.cell_at(x, y).tile == Some(
                            stamp_wall(base, wi, hi, *wall, k as int)[(x, y)],
                        ) && d.cell_at(x, y).occupant is None && d.cell_at(x, y).items == Seq::<
                            Seq<char>,
                        >::empty(),
                decreases wall.length - k,
            {
                proof {
                    assert(wall.xstep * (k + 1) == wall.xstep * k + wall.xstep)
                        by (nonlinear_arith);
                    assert(wall.ystep * (k + 1) == wall.ystep * k + wall.ystep)
                        by (nonlinear_arith);
                    assert(-((k as int) + 1) <= wall.xstep * ((k as int) + 1) <= (k as int) + 1)
                        by (nonlinear_arith)
                        requires
                            -1 <= wall.xstep <= 1,
                            (k as int) + 1 >= 0,
                    ;
                    assert(-((k as int) + 1) <= wall.ystep * ((k as int) + 1) <= (k as int) + 1)
                        by (nonlinear_arith)
                        requires
                            -1 <= wall.ystep <= 1,
                            (k as int) + 1 >= 0,
                    ;
                }
                cx = cx + wall.xstep as i64;
                cy = cy + wall.ystep as i64;
                if cx >= 0 && cx < w as i64 && cy >= 0 && cy < h as i64 {
                    let is_door = match wall.door {
                        Some((dx2, dy2)) => dx2 == cx && dy2 == cy,
                        None => false,
                    };
                    proof {
                        assert(is_door == (wall.door == Some((cx, cy))));
                    }
                    if is_door {
                        d.set_tile(cx as u32, cy as u32, &door_tile);
                    } else {
                        d.set_tile(cx as u32, cy as u32, &wall_tile);
                    }
                }
                k = k + 1;
            }
            proof {
                assert(stamp_wall(base, wi, hi, self.walls@[n as int], self.walls@[n as int].length as int)
                    == stamp_walls(floor_grid(wi, hi), wi, hi, self.walls@, n as int + 1));
            }
            n = n + 1;
        }
        let ghost after_walls = stamp_walls(
            floor_grid(wi, hi),
            wi,
            hi,
            self.walls@,
            self.walls@.len() as int,
        );
        let ghost d_pre_e = d;
        match &self.entrance {
            None => {},
            Some(p) => {
                let entrance_tile = match self.seed.tiles.get("entrance") {
                    Some(t) => t.clone(),
                    None => {
                        proof {
                            assert(false);
                        }
                        unreached()
                    },
                };
                d.set_tile(p.0, p.1, &entrance_tile);
            },
        }
        proof {
            assert forall|x: int, y: int| 0 <= x < wi && 0 <= y < hi implies #[trigger] d.cell_at(
                x,
                y,
            ).tile == Some(stamp_point(after_walls, self.entrance, "entrance"@)[(x, y)])
                && d.cell_at(x, y).occupant is None && d.cell_at(x, y).items == Seq::<
                Seq<char>,
            >::empty() by {
                assert(d_pre_e.cell_at(x, y).occupant is None && d_pre_e.cell_at(x, y).items
                    == Seq::<Seq<char>>::empty());
                match self.entrance {
                    None => {},
                    Some(pe) => {
                        if x == pe.0 as int && y == pe.1 as int {
                            assert(d.cell_at(x, y) == (CellView {
                                tile: Some("entrance"@),
                                ..d_pre_e.cell_at(x, y)
                            }));
                        } else {
                            assert(d.cell_at(x, y) == d_pre_e.cell_at(x, y));
                        }
                    },
                }
            }
        }
        let ghost after_entrance = stamp_point(after_walls, self.entrance, "entrance"@);
        let ghost d_pre_x = d;
        match &self.exit {
            None => {},
            Some(p) => {
                let exit_tile = match self.seed.tiles.get("exit") {
                    Some(t) => t.clone(),
                    None => {
                        proof {
                            assert(false);
                        }
                        unreached()
                    },
                };
                d.set_tile(p.0, p.1, &exit_tile);
            },
        }
        proof {
            assert forall|x: int, y: int| 0 <= x < wi && 0 <= y < hi implies #[trigger] d.cell_at(
                x,
                y,
            ).tile == Some(self.tile_grid()[(x, y)]) && d.cell_at(x, y).occupant is None
                && d.cell_at(x, y).items == Seq::<Seq<char>>::empty() by {
                assert(d_pre_x.cell_at(x, y).occupant is None && d_pre_x.cell_at(x, y).items
                    == Seq::<Seq<char>>::empty());
                match self.exit {
                    None => {},
                    Some(pe) => {
                        if x == pe.0 as int && y == pe.1 as int {
                            assert(d.cell_at(x, y) == (CellView {
                                tile: Some("exit"@),
                                ..d_pre_x.cell_at(x, y)
                            }));
                        } else {
                            assert(d.cell_at(x, y) == d_pre_x.cell_at(x, y));
                        }
                    },
                }
            }
        }
        proof {
            assert(stand_occupants(self.tile_grid(), self.occupants@, 0) == Map::<
                (int, int),
                Seq<char>,
            >::empty());
            assert forall|x: int, y: int| 0 <= x < wi && 0 <= y < hi implies #[trigger] d.cell_at(
                x,
                y,
            ).occupant == (if stand_occupants(self.tile_grid(), self.occupants@, 0).contains_key(
                (x, y),
            ) {
                Some(stand_occupants(self.tile_grid(), self.occupants@, 0)[(x, y)])
            } else {
                None
            }) by {
                assert(d.cell_at(x, y).tile == Some(self.tile_grid()[(x, y)]));
                assert(!stand_occupants(self.tile_grid(), self.occupants@, 0).contains_key((x, y)));
            }
        }
        let mut m: usize = 0;
        while m < self.occupants.len()
            invariant
                self.wf(),
                w == self.seed.width,
                h == self.seed.height,
                wi == w as int,
                hi == h as int,
                m <= self.occupants@.len(),
                d.wf(),
                d.width == w,
                d.height == h,
                forall|x: int, y: int|
                    0 <= x < wi && 0 <= y < hi ==> #[trigger] d.cell_at(x, y).tile == Some(
                        self.tile_grid()[(x, y)],
                    ) && d.cell_at(x, y).items == Seq::<Seq<char>>::empty(),
                forall|x: int, y: int|
                    0 <= x < wi && 0 <= y < hi ==> #[trigger] d.cell_at(x, y).occupant == (if
                    stand_occupants(self.tile_grid(), self.occupants@, m as int).contains_key(
                        (x, y),
                    ) {
                        Some(stand_occupants(self.tile_grid(), self.occupants@, m as int)[(x, y)])
                    } else {
                        None
                    }),
            decreases self.occupants@.len() - m,
        {
            let o = self.occupants[m].0.clone();
            let (ox, oy) = self.occupants[m].1;
            proof {
                assert((o, (ox, oy)) == self.occupants@[m as int]);
            }
            let on_floor = d.has_attribute(ox, oy, "floor");
            if on_floor {
                d.set_occupant(ox, oy, &o);
            }
            proof {
                let p = (ox as int, oy as int);
                lemma_tile_grid_covers(*self, p);
                assert(on_floor == (self.tile_grid()[p] == "floor"@));
                let g2 = stand_occupants(self.tile_grid(), self.occupants@, m as int);
                let gn = stand_occupants(self.tile_grid(), self.occupants@, m as int + 1);
                if on_floor {
                    assert(gn == g2.insert(p, o.name_spec()));
                } else {
                    assert(gn == g2);
                }
                assert forall|x: int, y: int| 0 <= x < wi && 0 <= y < hi implies
                    #[trigger] d.cell_at(x, y).occupant == (if gn.contains_key((x, y)) {
                    Some(gn[(x, y)])
                } else {
                    None
                }) by {}
            }
            m = m + 1;
        }
        proof {
            let gfin = stand_occupants(
                self.tile_grid(),
                self.occupants@,
                self.occupants@.len() as int,
            );
            assert forall|x: int, y: int| 0 <= x < wi && 0 <= y < hi implies #[trigger] d.cell_at(
                x,
                y,
            ) == (CellView {
                x,
                y,
                tile: Some(self.tile_grid()[(x, y)]),
                occupant: (if self.occupant_grid().contains_key((x, y)) {
                    Some(self.occupant_grid()[(x, y)])
                } else {
                    None
                }),
                items: Seq::<Seq<char>>::empty(),
            }) by {
                assert(d.cell_at(x, y).x == x && d.cell_at(x, y).y == y);
            }
        }
        d
    }
}

impl Clone for ListOfWalls {
    fn clone(&self) -> (r: Self)
        ensures
            r.seed.width == self.seed.width,
            r.seed.height == self.seed.height,
            r.seed.occupant_chance == self.seed.occupant_chance,
            r.seed.tiles.options_spec() == self.seed.tiles.options_spec(),
            r.seed.items.options_spec() == self.seed.items.options_spec(),
            r.seed.occupants.options_spec() == self.seed.occupants.options_spec(),
            r.walls@ == self.walls@,
            r.coverage_pct == self.coverage_pct,
            r.door_chance_pct == self.door_chance_pct,
            r.entrance == self.entrance,
            r.exit == self.exit,
            r.occupants@ == self.occupants@,
            self.wf() ==> r.wf(),
    {
        let mut walls: Vec<Wall> = Vec::new();
        let mut k: usize = 0;
        while k < self.walls.len()
            invariant
                k <= self.walls@.len(),
                walls@.len() == k,
                forall|i: int| 0 <= i < k ==> walls@[i] == self.walls@[i],
            decreases self.walls@.len() - k,
        {
            walls.push(self.walls[k].clone());
            k = k + 1;
        }
        proof {
            assert(walls@ =~= self.walls@);
        }
        let mut occupants: Vec<(Occupant, (u32, u32))> = Vec::new();
        let mut m: usize = 0;
        while m < self.occupants.len()
            invariant
                m <= self.occupants@.len(),
                occupants@.len() == m,
                forall|i: int| 0 <= i < m ==> occupants@[i] == self.occupants@[i],
            decreases self.occupants@.len() - m,
        {
            let o = self.occupants[m].0.clone();
            let p = self.occupants[m].1;
            occupants.push((o, p));
            m = m + 1;
        }
        proof {
            assert(occupants@ =~= self.occupants@);
        }
        ListOfWalls {
            seed: self.seed.clone(),
            walls,
            coverage_pct: self.coverage_pct,
            door_chance_pct: self.door_chance_pct,
            entrance: match self.entrance {
                None => None,
                Some(p) => Some(p),
            },
            exit: match self.exit {
                None => None,
                Some(p) => Some(p),
            },
            occupants,
        }
    }
}

/// Two phenotypes of the same genotype hold the same contents, cell
/// for cell: `generate` is reproducible.
pub proof fn lemma_list_of_walls_reproducible(g: ListOfWalls, d1: Dungeon, d2: Dungeon)
    requires
        g.phenotype_matches(d1),
        g.phenotype_matches(d2),
    ensures
        d1.same_contents(d2),
{
}

} // verus!
