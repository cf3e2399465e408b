//! The room-and-maze strategy: place rooms, carve mazes through the
//! rest, join regions through connectors, and prune dead ends.
//!
//! Rooms live on the odd lattice so that maze corridors, which advance
//! two cells at a time, always leave a one-cell wall between parallel
//! passages. Connectors are empty cells bordering two or more regions;
//! merging picks random connectors until every region is joined.

use vstd::prelude::*;

use crate::celloption::{CellOption, Occupant};
use crate::cell::CellView;
use crate::coords::{CoordSet, RegionSet};
use crate::dungeon::Dungeon;
use crate::phenotype::Seed;
use crate::rng::{index_below, range_u32, rng_below};
use crate::util::odds;

verus! {

/// Move `n` steps in a direction from a coordinate.
pub fn scale(coord: (u32, u32), dir: (i32, i32), n: i32) -> (r: (i64, i64))
    requires
        coord.0 <= 0x1_0000,
        coord.1 <= 0x1_0000,
        -4 <= dir.0 <= 4,
        -4 <= dir.1 <= 4,
        -4 <= n <= 4,
    ensures
        r.0 == coord.0 + dir.0 * n,
        r.1 == coord.1 + dir.1 * n,
{
    proof {
        assert(-16 <= (dir.0 as int) * (n as int) <= 16 && -16 <= (dir.1 as int) * (n as int)
            <= 16) by (nonlinear_arith)
            requires
                -4 <= (dir.0 as int) <= 4,
                -4 <= (dir.1 as int) <= 4,
                -4 <= (n as int) <= 4,
        ;
    }
    (coord.0 as i64 + (dir.0 * n) as i64, coord.1 as i64 + (dir.1 * n) as i64)
}

/// An axis-aligned room on the odd lattice, tagged with its region id.
#[derive(Clone, Copy, Debug)]
pub struct Room {
    pub x: u32,
    pub y: u32,
    pub w: u32,
    pub h: u32,
    pub region: u32,
}

impl Room {
    /// The room sits on the odd lattice, strictly inside the grid.
    pub open spec fn wf(self, width: int, height: int) -> bool {
        &&& 1 <= self.x
        &&& 1 <= self.y
        &&& 3 <= self.w
        &&& 3 <= self.h
        &&& self.x + self.w <= width
        &&& self.y + self.h <= height
        &&& self.x % 2 == 1
        &&& self.y % 2 == 1
        &&& self.w % 2 == 1
        &&& self.h % 2 == 1
    }

    /// Whether the room covers `(px, py)`.
    pub open spec fn contains_spec(self, px: int, py: int) -> bool {
        self.x <= px < self.x + self.w && self.y <= py < self.y + self.h
    }

    /// Whether `(px, py)` lies on the room's one-cell border ring.
    pub open spec fn on_border(self, px: int, py: int) -> bool {
        self.contains_spec(px, py) && (px == self.x || px == self.x + self.w - 1 || py == self.y
            || py == self.y + self.h - 1)
    }

    /// Whether two rooms overlap, bounding box against bounding box.
    pub open spec fn overlaps(self, other: Room) -> bool {
        self.x + self.w > other.x && self.y + self.h > other.y && self.x < other.x + other.w
            && self.y < other.y + other.h
    }

    /// Roll a random room: odd width and height below the configured
    /// size, at an odd position that keeps it inside the grid.
    pub fn random(
        rng: &mut rand::rngs::StdRng,
        width: u32,
        height: u32,
        room_size: u32,
        region: u32,
    ) -> (r: Room)
        requires
            4 <= room_size,
            room_size + 1 <= width <= 0xFFFF,
            room_size + 1 <= height <= 0xFFFF,
        ensures
            r.wf(width as int, height as int),
            r.region == region,
            r.w < room_size,
            r.h < room_size,
            r.x + r.w < width,
            r.y + r.h < height,
    {
        let w0 = range_u32(rng, 3, room_size);
        let h0 = range_u32(rng, 3, room_size);
        let x0 = range_u32(rng, 1, width - w0);
        let y0 = range_u32(rng, 1, height - h0);
        let x = if x0 % 2 == 0 {
            x0 - 1
        } else {
            x0
        };
        let y = if y0 % 2 == 0 {
            y0 - 1
        } else {
            y0
        };
        let w = if w0 % 2 == 0 {
            w0 - 1
        } else {
            w0
        };
        let h = if h0 % 2 == 0 {
            h0 - 1
        } else {
            h0
        };
        Room { x, y, w, h, region }
    }

    /// Whether this room's bounding box meets any room of the list.
    pub fn intersects(&self, rooms: &Vec<Room>) -> (r: bool)
        ensures
            r == exists|i: int| 0 <= i < rooms@.len() && self.overlaps(#[trigger] rooms@[i]),
    {
        let mut k: usize = 0;
        while k < rooms.len()
            invariant
                k <= rooms@.len(),
                forall|i: int| 0 <= i < k ==> !self.overlaps(#[trigger] rooms@[i]),
            decreases rooms@.len() - k,
        {
            let r = &rooms[k];
            let rw = r.x as u64 + r.w as u64;
            let rh = r.y as u64 + r.h as u64;
            let roomw = self.x as u64 + self.w as u64;
            let roomh = self.y as u64 + self.h as u64;
            if roomw > r.x as u64 && roomh > r.y as u64 && (self.x as u64) < rw && (self.y as u64)
                < rh {
                proof {
                    assert(self.overlaps(rooms@[k as int]));
                }
                return true;
            }
            k = k + 1;
        }
        false
    }

    /// Whether the room covers `(x, y)`.
    pub fn contains(&self, x: u32, y: u32) -> (r: bool)
        ensures
            r == self.contains_spec(x as int, y as int),
    {
        let roomw = self.x as u64 + self.w as u64;
        let roomh = self.y as u64 + self.h as u64;
        x >= self.x && (x as u64) < roomw && y >= self.y && (y as u64) < roomh
    }

    /// The coordinates of the room's border ring, top and bottom runs
    /// first, then the left and right columns: every listed coordinate
    /// is on the ring, and every ring coordinate is listed.
    pub fn border(&self) -> (r: Vec<(u32, u32)>)
        requires
            self.x + self.w <= 0x1_0000,
            self.y + self.h <= 0x1_0000,
            self.w >= 1,
            self.h >= 1,
        ensures
            r@.len() == 2 * self.w + 2 * self.h,
            forall|k: int|
                0 <= k < r@.len() ==> self.on_border(
                    (#[trigger] r@[k]).0 as int,
                    r@[k].1 as int,
                ),
            forall|px: int, py: int| self.on_border(px, py) ==> #[trigger] listed(r@, px, py),
    {
        let mut r: Vec<(u32, u32)> = Vec::new();
        let mut i: u32 = 0;
        while i < self.w
            invariant
                i <= self.w,
                self.x + self.w <= 0x1_0000,
                self.y + self.h <= 0x1_0000,
                self.w >= 1,
                self.h >= 1,
                r@.len() == 2 * i,
                forall|k: int|
                    0 <= k < r@.len() ==> self.on_border(
                        (#[trigger] r@[k]).0 as int,
                        r@[k].1 as int,
                    ),
                forall|c: int|
                    0 <= c < i ==> (#[trigger] r@[2 * c]).0 == self.x + c && r@[2 * c].1 == self.y
                        && r@[2 * c + 1].0 == self.x + c && r@[2 * c + 1].1 == self.y + self.h - 1,
            decreases self.w - i,
        {
            let ghost r0 = r@;
            r.push((self.x + i, self.y));
            r.push((self.x + i, self.y + self.h - 1));
            proof {
                assert forall|c: int|
                    0 <= c < i + 1 implies (#[trigger] r@[2 * c]).0 == self.x + c && r@[2 * c].1
                    == self.y && r@[2 * c + 1].0 == self.x + c && r@[2 * c + 1].1 == self.y + self.h
                    - 1 by {
                    if c < i {
                        assert(r@[2 * c] == r0[2 * c] && r@[2 * c + 1] == r0[2 * c + 1]);
                    } else {
                        assert(r@[2 * c] == (((self.x + i) as u32), self.y));
                        assert(r@[2 * c + 1] == (((self.x + i) as u32), ((self.y + self.h
                            - 1) as u32)));
                    }
                }
            }
            i = i + 1;
        }
        let ghost tops: int = 2 * (self.w as int);
        let mut j: u32 = 0;
        while j < self.h
            invariant
                j <= self.h,
                self.x + self.w <= 0x1_0000,
                self.y + self.h <= 0x1_0000,
                self.w >= 1,
                self.h >= 1,
                tops == 2 * self.w,
                r@.len() == tops + 2 * j,
                forall|k: int|
                    0 <= k < r@.len() ==> self.on_border(
                        (#[trigger] r@[k]).0 as int,
                        r@[k].1 as int,
                    ),
                forall|c: int|
                    0 <= c < self.w ==> (#[trigger] r@[2 * c]).0 == self.x + c && r@[2 * c].1
                        == self.y && r@[2 * c + 1].0 == self.x + c && r@[2 * c + 1].1 == self.y
                        + self.h - 1,
                forall|c: int|
                    0 <= c < j ==> (#[trigger] r@[tops + 2 * c]).0 == self.x && r@[tops + 2 * c].1
                        == self.y + c && r@[tops + 2 * c + 1].0 == self.x + self.w - 1 && r@[tops
                        + 2 * c + 1].1 == self.y + c,
            decreases self.h - j,
        {
            let ghost r0 = r@;
            r.push((self.x, self.y + j));
            r.push((self.x + self.w - 1, self.y + j));
            proof {
                assert forall|c: int|
                    0 <= c < self.w implies (#[trigger] r@[2 * c]).0 == self.x + c && r@[2 * c].1
                    == self.y && r@[2 * c + 1].0 == self.x + c && r@[2 * c + 1].1 == self.y + self.h
                    - 1 by {
                    assert(0 <= 2 * c && 2 * c + 1 < r0.len());
                    assert(r@[2 * c] == r0[2 * c] && r@[2 * c + 1] == r0[2 * c + 1]);
                }
                assert forall|c: int|
                    0 <= c < j + 1 implies (#[trigger] r@[tops + 2 * c]).0 == self.x && r@[tops + 2
                    * c].1 == self.y + c && r@[tops + 2 * c + 1].0 == self.x + self.w - 1 && r@[tops
                    + 2 * c + 1].1 == self.y + c by {
                    if c < j {
                        assert(r@[tops + 2 * c] == r0[tops + 2 * c] && r@[tops + 2 * c + 1]
                            == r0[tops + 2 * c + 1]);
                    } else {
                        assert(r@[tops + 2 * c] == (self.x, ((self.y + j) as u32)));
                        assert(r@[tops + 2 * c + 1] == (((self.x + self.w - 1) as u32), ((self.y
                            + j) as u32)));
                    }
                }
            }
            j = j + 1;
        }
        proof {
            assert forall|px: int, py: int| self.on_border(px, py) implies #[trigger] listed(
                r@,
                px,
                py,
            ) by {
                if py == self.y {
                    let c = px - self.x;
                    assert(0 <= c < self.w);
                    assert((r@[2 * c]).0 == px && (r@[2 * c]).1 == py);
                } else if py == self.y + self.h - 1 {
                    let c = px - self.x;
                    assert(0 <= c < self.w);
                    assert((r@[2 * c]).0 == self.x + c);
                    assert((r@[2 * c + 1]).0 == px && (r@[2 * c + 1]).1 == py);
                } else if px == self.x {
                    let c = py - self.y;
                    assert(0 <= c < self.h);
                    assert((r@[tops + 2 * c]).0 == px && (r@[tops + 2 * c]).1 == py);
                } else {
                    let c = py - self.y;
                    assert(0 <= c < self.h);
                    assert((r@[tops + 2 * c]).0 == self.x);
                    assert((r@[tops + 2 * c + 1]).0 == px && (r@[tops + 2 * c + 1]).1 == py);
                }
            }
        }
        r
    }
}

/// Whether some element of a coordinate list is exactly `(px, py)`.
pub open spec fn listed(r: Seq<(u32, u32)>, px: int, py: int) -> bool {
    exists|k: int| 0 <= k < r.len() && (#[trigger] r[k]).0 == px && r[k].1 == py
}

/// Whether `(px, py)` collides for the maze carver: off the grid or
/// inside a room.
pub open spec fn collides_spec(rooms: Seq<Room>, width: int, height: int, px: int, py: int) -> bool {
    px < 0 || px >= width || py < 0 || py >= height || exists|i: int|
        0 <= i < rooms.len() && (#[trigger] rooms[i]).contains_spec(px, py)
}

/// The maze carver's collision test.
fn collides(rooms: &Vec<Room>, width: u32, height: u32, px: i64, py: i64) -> (r: bool)
    ensures
        r == collides_spec(rooms@, width as int, height as int, px as int, py as int),
{
    if px < 0 || px >= width as i64 || py < 0 || py >= height as i64 {
        return true;
    }
    let mut k: usize = 0;
    while k < rooms.len()
        invariant
            k <= rooms@.len(),
            0 <= px < width,
            0 <= py < height,
            forall|i: int|
                0 <= i < k ==> !(#[trigger] rooms@[i]).contains_spec(px as int, py as int),
        decreases rooms@.len() - k,
    {
        if rooms[k].contains(px as u32, py as u32) {
            proof {
                assert(rooms@[k as int].contains_spec(px as int, py as int));
            }
            return true;
        }
        k = k + 1;
    }
    false
}

/// The growing-tree shape of a carved set: every carved cell lies on
/// the odd lattice, or it is the midpoint of a two-cell carve — one
/// even and one odd coordinate, with both its neighbors along the even
/// axis carved, so those neighbors lie on the odd lattice themselves.
pub open spec fn carved_shape(s: Set<(int, int)>) -> bool {
    forall|p: (int, int)|
        #[trigger] s.contains(p) ==> (p.0 % 2 == 1 && p.1 % 2 == 1) || (p.0 % 2 == 0 && p.1 % 2
            == 1 && s.contains((p.0 - 1, p.1)) && s.contains((p.0 + 1, p.1))) || (p.0 % 2 == 1
            && p.1 % 2 == 0 && s.contains((p.0, p.1 - 1)) && s.contains((p.0, p.1 + 1)))
}

/// A connected patch of carved maze, tagged with its region id.
#[derive(Debug)]
pub struct Maze {
    pub path: CoordSet,
    pub region: u32,
}

impl Clone for Maze {
    fn clone(&self) -> (r: Self)
        ensures
            r.path@ == self.path@,
            r.path.elems@ == self.path.elems@,
            r.region == self.region,
    {
        Maze { path: self.path.clone(), region: self.region }
    }
}

/// A unit step along exactly one axis.
pub open spec fn cardinal_dir(d: (int, int)) -> bool {
    (d.0 == 0 && (d.1 == 1 || d.1 == -1)) || (d.1 == 0 && (d.0 == 1 || d.0 == -1))
}

/// Whether a direction qualifies for carving from `c`: the next three
/// cells ahead are uncarved, and the three ahead are free of rooms and
/// grid edges.
pub open spec fn dir_ok_spec(
    all: Set<(int, int)>,
    rooms: Seq<Room>,
    w: int,
    h: int,
    c: (int, int),
    d: (int, int),
) -> bool {
    &&& !all.contains((c.0 + d.0, c.1 + d.1))
    &&& !all.contains((c.0 + 2 * d.0, c.1 + 2 * d.1))
    &&& !all.contains((c.0 + 3 * d.0, c.1 + 3 * d.1))
    &&& !collides_spec(rooms, w, h, c.0 + d.0, c.1 + d.1)
    &&& !collides_spec(rooms, w, h, c.0 + 2 * d.0, c.1 + 2 * d.1)
    &&& !collides_spec(rooms, w, h, c.0 + 3 * d.0, c.1 + 3 * d.1)
}

/// Membership with signed coordinates: anything off the unsigned range
/// is never stored.
fn contains_i64(s: &CoordSet, px: i64, py: i64) -> (r: bool)
    ensures
        r == s@.contains((px as int, py as int)),
{
    if px < 0 || py < 0 || px > 0xFFFF_FFFF || py > 0xFFFF_FFFF {
        proof {
            assert(!s@.contains((px as int, py as int)));
        }
        false
    } else {
        s.contains(px as u32, py as u32)
    }
}

/// The carving qualification test.
fn dir_ok(
    all: &CoordSet,
    rooms: &Vec<Room>,
    width: u32,
    height: u32,
    c: (u32, u32),
    d: (i32, i32),
) -> (r: bool)
    requires
        c.0 <= 0xFFFF,
        c.1 <= 0xFFFF,
        -1 <= d.0 <= 1,
        -1 <= d.1 <= 1,
    ensures
        r == dir_ok_spec(
            all@,
            rooms@,
            width as int,
            height as int,
            (c.0 as int, c.1 as int),
            (d.0 as int, d.1 as int),
        ),
{
    let (c1x, c1y) = scale(c, d, 1);
    let (c2x, c2y) = scale(c, d, 2);
    let (c3x, c3y) = scale(c, d, 3);
    !contains_i64(all, c1x, c1y) && !contains_i64(all, c2x, c2y) && !contains_i64(all, c3x, c3y)
        && !collides(rooms, width, height, c1x, c1y) && !collides(rooms, width, height, c2x, c2y)
        && !collides(rooms, width, height, c3x, c3y)
}

impl Maze {
    /// Grow one maze with the growing-tree algorithm, starting at
    /// `(x, y)`: keep a frontier stack, carve two cells at a time in a
    /// qualifying direction — preferring the current one with the
    /// given percent chance — and backtrack when stuck. The result is
    /// the set of newly carved cells.
    #[verifier::rlimit(100)]
    #[verifier::spinoff_prover]
    pub fn grow(
        rng: &mut rand::rngs::StdRng,
        previous: &CoordSet,
        rooms: &Vec<Room>,
        width: u32,
        height: u32,
        branching_pct: u64,
        x: u32,
        y: u32,
    ) -> (r: CoordSet)
        requires
            previous.wf(),
            width <= 0xFFFF,
            height <= 0xFFFF,
            x % 2 == 1,
            y % 2 == 1,
            !collides_spec(rooms@, width as int, height as int, x as int, y as int),
            !previous@.contains((x as int, y as int)),
            forall|p: (int, int)|
                previous@.contains(p) ==> 0 <= p.0 < width && 0 <= p.1 < height,
        ensures
            r.wf(),
            r@.contains((x as int, y as int)),
            forall|p: (int, int)|
                #[trigger] r@.contains(p) ==> 0 <= p.0 < width && 0 <= p.1 < height
                    && !previous@.contains(p) && !collides_spec(
                    rooms@,
                    width as int,
                    height as int,
                    p.0,
                    p.1,
                ),
            carved_shape(r@),
    {
        let dirs: Vec<(i32, i32)> = vec![(0, 1), (1, 0), (0, -1), (-1, 0)];
        let mut dir: (i32, i32) = dirs[index_below(rng, 4)];
        let mut all = previous.clone();
        let mut fresh = CoordSet::new();
        all.insert(x, y);
        fresh.insert(x, y);
        let mut stack: Vec<(u32, u32)> = Vec::new();
        stack.push((x, y));
        proof {
            crate::coords::lemma_coord_seq_card(all.elems@);
            crate::evaluation::lemma_grid_coords_card(width as int, height as int);
            assert(all@.subset_of(crate::evaluation::grid_coords(width as int, height as int)));
            vstd::set_lib::lemma_len_subset(
                all@,
                crate::evaluation::grid_coords(width as int, height as int),
            );
        }
        while stack.len() > 0
            invariant
                previous.wf(),
                all.wf(),
                fresh.wf(),
                width <= 0xFFFF,
                height <= 0xFFFF,
                cardinal_dir((dir.0 as int, dir.1 as int)),
                dirs@.len() == 4,
                dirs@[0] == (0i32, 1i32) && dirs@[1] == (1i32, 0i32) && dirs@[2] == (0i32, -1i32)
                    && dirs@[3] == (-1i32, 0i32),
                forall|p: (int, int)|
                    previous@.contains(p) ==> 0 <= p.0 < width && 0 <= p.1 < height,
                previous@.subset_of(all@),
                fresh@.subset_of(all@),
                forall|p: (int, int)| all@.contains(p) ==> previous@.contains(p) || fresh@.contains(p),
                fresh@.contains((x as int, y as int)),
                forall|p: (int, int)|
                    fresh@.contains(p) ==> 0 <= p.0 < width && 0 <= p.1 < height
                        && !previous@.contains(p) && !collides_spec(
                        rooms@,
                        width as int,
                        height as int,
                        p.0,
                        p.1,
                    ),
                carved_shape(fresh@),
                forall|k: int|
                    0 <= k < stack@.len() ==> fresh@.contains(
                        ((#[trigger] stack@[k]).0 as int, stack@[k].1 as int),
                    ) && stack@[k].0 % 2 == 1 && stack@[k].1 % 2 == 1 && stack@[k].0 <= 0xFFFF
                        && stack@[k].1 <= 0xFFFF,
                all.elems@.len() <= width * height,
            decreases (width * height - all.elems@.len()) + stack@.len(),
        {
            let top = stack.len() - 1;
            let c = stack[top];
            let mut cand: Vec<(i32, i32)> = Vec::new();
            let mut k: usize = 0;
            while k < 4
                invariant
                    k <= 4,
                    c.0 <= 0xFFFF,
                    c.1 <= 0xFFFF,
                    dirs@.len() == 4,
                    dirs@[0] == (0i32, 1i32) && dirs@[1] == (1i32, 0i32) && dirs@[2] == (
                    0i32,
                    -1i32,
                    ) && dirs@[3] == (-1i32, 0i32),
                    forall|m: int|
                        0 <= m < cand@.len() ==> (cardinal_dir(
                            ((#[trigger] cand@[m]).0 as int, cand@[m].1 as int),
                        ) && dir_ok_spec(
                            all@,
                            rooms@,
                            width as int,
                            height as int,
                            (c.0 as int, c.1 as int),
                            (cand@[m].0 as int, cand@[m].1 as int),
                        )),
                decreases 4 - k,
            {
                let d = dirs[k];
                proof {
                    assert(cardinal_dir((d.0 as int, d.1 as int)));
                }
                if dir_ok(&all, rooms, width, height, c, d) {
                    cand.push(d);
                }
                k = k + 1;
            }
            if cand.len() > 0 {
                let same = odds(rng, branching_pct, 100);
                let mut chosen: (i32, i32) = cand[0];
                if same && dir_ok(&all, rooms, width, height, c, dir) {
                    chosen = dir;
                } else {
                    chosen = cand[index_below(rng, cand.len())];
                }
                dir = chosen;
                let (c1x, c1y) = scale(c, chosen, 1);
                let (c2x, c2y) = scale(c, chosen, 2);
                let c1 = (c1x as u32, c1y as u32);
                let c2 = (c2x as u32, c2y as u32);
                let ghost fresh0 = fresh@;
                all.insert(c1.0, c1.1);
                fresh.insert(c1.0, c1.1);
                all.insert(c2.0, c2.1);
                fresh.insert(c2.0, c2.1);
                stack.push(c2);
                proof {
                    assert(c2.0 % 2 == 1 && c2.1 % 2 == 1);
                    assert(carved_shape(fresh@)) by {
                        assert forall|p: (int, int)| #[trigger] fresh@.contains(p) implies (p.0 % 2
                            == 1 && p.1 % 2 == 1) || (p.0 % 2 == 0 && p.1 % 2 == 1
                            && fresh@.contains((p.0 - 1, p.1)) && fresh@.contains((p.0 + 1, p.1)))
                            || (p.0 % 2 == 1 && p.1 % 2 == 0 && fresh@.contains((p.0, p.1 - 1))
                            && fresh@.contains((p.0, p.1 + 1))) by {
                            if fresh0.contains(p) {
                            } else if p == (c1.0 as int, c1.1 as int) {
                                assert(fresh@.contains((c.0 as int, c.1 as int)));
                                assert(fresh@.contains((c2.0 as int, c2.1 as int)));
                                assert(c.0 % 2 == 1 && c.1 % 2 == 1);
                                if chosen.0 == 0 {
                                    assert(p.0 % 2 == 1 && p.1 % 2 == 0);
                                } else {
                                    assert(p.0 % 2 == 0 && p.1 % 2 == 1);
                                }
                            } else {
                                assert(p == (c2.0 as int, c2.1 as int));
                                assert(c.0 % 2 == 1 && c.1 % 2 == 1);
                                assert(p.0 % 2 == 1 && p.1 % 2 == 1);
                            }
                        }
                    }
                    crate::coords::lemma_coord_seq_card(all.elems@);
                    crate::evaluation::lemma_grid_coords_card(width as int, height as int);
                    assert(all@.subset_of(
                        crate::evaluation::grid_coords(width as int, height as int),
                    ));
                    vstd::set_lib::lemma_len_subset(
                        all@,
                        crate::evaluation::grid_coords(width as int, height as int),
                    );
                }
            } else {
                let _ = stack.pop();
            }
        }
        fresh
    }

    /// Grow a maze and tag it with a region id.
    pub fn new(
        rng: &mut rand::rngs::StdRng,
        previous: &CoordSet,
        rooms: &Vec<Room>,
        width: u32,
        height: u32,
        branching_pct: u64,
        region: u32,
        x: u32,
        y: u32,
    ) -> (m: Maze)
        requires
            previous.wf(),
            width <= 0xFFFF,
            height <= 0xFFFF,
            x % 2 == 1,
            y % 2 == 1,
            !collides_spec(rooms@, width as int, height as int, x as int, y as int),
            !previous@.contains((x as int, y as int)),
            forall|p: (int, int)|
                previous@.contains(p) ==> 0 <= p.0 < width && 0 <= p.1 < height,
        ensures
            m.region == region,
            m.path.wf(),
            m.path@.contains((x as int, y as int)),
            forall|p: (int, int)|
                #[trigger] m.path@.contains(p) ==> 0 <= p.0 < width && 0 <= p.1 < height
                    && !previous@.contains(p) && !collides_spec(
                    rooms@,
                    width as int,
                    height as int,
                    p.0,
                    p.1,
                ),
            carved_shape(m.path@),
    {
        let path = Maze::grow(rng, previous, rooms, width, height, branching_pct, x, y);
        Maze { path, region }
    }
}

/// A cell adjacent to two or more regions, candidate for a passage.
#[derive(Debug)]
pub struct Connector {
    pub location: (u32, u32),
    pub regions: RegionSet,
}

impl Connector {
    /// A connector at a location, joining the given regions.
    pub fn new(location: (u32, u32), regions: &RegionSet) -> (r: Connector)
        ensures
            r.location == location,
            r.regions@ == regions@,
            r.regions.elems@ == regions.elems@,
    {
        Connector { location, regions: regions.clone() }
    }
}

impl Clone for Connector {
    fn clone(&self) -> (r: Self)
        ensures
            r.location == self.location,
            r.regions@ == self.regions@,
            r.regions.elems@ == self.regions.elems@,
    {
        Connector { location: self.location, regions: self.regions.clone() }
    }
}

/// The set of cells the connectors sit on.
pub open spec fn connector_coords(cs: Seq<Connector>) -> Set<(int, int)> {
    crate::coords::coord_seq_view(cs.map_values(|c: Connector| c.location))
}

/// Whether a cell one step in each direction is walkable: carved in
/// the maze or kept as a connector.
pub open spec fn walkable(s: Set<(int, int)>, conns: Set<(int, int)>, p: (int, int)) -> bool {
    s.contains(p) || conns.contains(p)
}

/// How many of the four cardinal neighbors of `p` are walkable.
pub open spec fn exit_count(s: Set<(int, int)>, conns: Set<(int, int)>, p: (int, int)) -> int {
    (if walkable(s, conns, (p.0, p.1 - 1)) {
        1int
    } else {
        0int
    }) + (if walkable(s, conns, (p.0 + 1, p.1)) {
        1int
    } else {
        0int
    }) + (if walkable(s, conns, (p.0, p.1 + 1)) {
        1int
    } else {
        0int
    }) + (if walkable(s, conns, (p.0 - 1, p.1)) {
        1int
    } else {
        0int
    })
}

/// The carved cells with exactly one walkable neighbor.
pub open spec fn dead_ends(s: Set<(int, int)>, conns: Set<(int, int)>) -> Set<(int, int)> {
    Set::new(|p: (int, int)| s.contains(p) && exit_count(s, conns, p) == 1)
}

/// The carved set after all dead ends are gone: remove every cell with
/// exactly one walkable neighbor, and repeat until none is left.
pub open spec fn prune_spec(s: Set<(int, int)>, conns: Set<(int, int)>) -> Set<(int, int)>
    decreases s.len()
        when s.finite()
        via prune_spec_dec
{
    if dead_ends(s, conns) =~= Set::<(int, int)>::empty() {
        s
    } else {
        prune_spec(s.difference(dead_ends(s, conns)), conns)
    }
}

#[via_fn]
proof fn prune_spec_dec(s: Set<(int, int)>, conns: Set<(int, int)>) {
    if !(dead_ends(s, conns) =~= Set::<(int, int)>::empty()) {
        let ds = dead_ends(s, conns);
        let x = ds.choose();
        assert(ds.contains(x));
        assert(s.contains(x));
        let diff = s.difference(ds);
        assert(diff.subset_of(s.remove(x)));
        vstd::set_lib::lemma_len_subset(diff, s.remove(x));
    }
}

/// Once pruned, no dead end remains.
pub proof fn lemma_prune_no_dead_ends(s: Set<(int, int)>, conns: Set<(int, int)>)
    requires
        s.finite(),
    ensures
        prune_spec(s, conns).finite(),
        dead_ends(prune_spec(s, conns), conns) =~= Set::<(int, int)>::empty(),
        prune_spec(s, conns).subset_of(s),
    decreases s.len(),
{
    if !(dead_ends(s, conns) =~= Set::<(int, int)>::empty()) {
        let ds = dead_ends(s, conns);
        let x = ds.choose();
        assert(ds.contains(x));
        let diff = s.difference(ds);
        assert(diff.subset_of(s.remove(x)));
        vstd::set_lib::lemma_len_subset(diff, s.remove(x));
        lemma_prune_no_dead_ends(diff, conns);
    }
}

/// Pruning is idempotent: pruning a pruned set changes nothing.
pub proof fn lemma_prune_idempotent(s: Set<(int, int)>, conns: Set<(int, int)>)
    requires
        s.finite(),
    ensures
        prune_spec(prune_spec(s, conns), conns) == prune_spec(s, conns),
{
    lemma_prune_no_dead_ends(s, conns);
}

/// The walkable-neighbor count of one cell.
fn exit_count_exec(path: &CoordSet, conns: &CoordSet, px: u32, py: u32) -> (r: u32)
    ensures
        r == exit_count(path@, conns@, (px as int, py as int)),
{
    let mut r: u32 = 0;
    if contains_i64(path, px as i64, py as i64 - 1) || contains_i64(conns, px as i64, py as i64
        - 1) {
        r = r + 1;
    }
    if contains_i64(path, px as i64 + 1, py as i64) || contains_i64(conns, px as i64 + 1, py as i64)
        {
        r = r + 1;
    }
    if contains_i64(path, px as i64, py as i64 + 1) || contains_i64(conns, px as i64, py as i64 + 1)
        {
        r = r + 1;
    }
    if contains_i64(path, px as i64 - 1, py as i64) || contains_i64(conns, px as i64 - 1, py as i64)
        {
        r = r + 1;
    }
    r
}

impl Maze {
    /// Remove the maze's dead ends: every carved cell with exactly one
    /// walkable neighbor goes, again and again, until none is left.
    /// Kept connectors count as walkable so passages to other regions
    /// survive.
    pub fn prune(&mut self, connectors: &Vec<Connector>)
        requires
            old(self).path.wf(),
        ensures
            final(self).path.wf(),
            final(self).region == old(self).region,
            final(self).path@ == prune_spec(old(self).path@, connector_coords(connectors@)),
            final(self).path@.subset_of(old(self).path@),
    {
        let mut cset = CoordSet::new();
        let ghost locs = connectors@.map_values(|c: Connector| c.location);
        let mut ci: usize = 0;
        proof {
            assert(cset@ =~= crate::coords::coord_seq_view(locs.take(0)));
        }
        while ci < connectors.len()
            invariant
                ci <= connectors@.len(),
                cset.wf(),
                locs == connectors@.map_values(|c: Connector| c.location),
                cset@ == crate::coords::coord_seq_view(locs.take(ci as int)),
            decreases connectors@.len() - ci,
        {
            let (lx, ly) = connectors[ci].location;
            cset.insert(lx, ly);
            proof {
                assert(locs.take(ci as int + 1) =~= locs.take(ci as int).push(
                    connectors@[ci as int].location,
                ));
                crate::coords::lemma_coord_push(locs.take(ci as int), connectors@[ci as int].location);
            }
            ci = ci + 1;
        }
        proof {
            assert(locs.take(locs.len() as int) =~= locs);
            assert(cset@ == connector_coords(connectors@));
            crate::coords::lemma_coord_seq_card(self.path.elems@);
        }
        let ghost orig = self.path@;
        loop
            invariant
                self.path.wf(),
                self.region == old(self).region,
                cset.wf(),
                cset@ == connector_coords(connectors@),
                self.path@.subset_of(orig),
                orig.finite(),
                self.path@.finite(),
                prune_spec(orig, cset@) == prune_spec(self.path@, cset@),
            ensures
                self.path.wf(),
                self.region == old(self).region,
                self.path@.subset_of(orig),
                dead_ends(self.path@, cset@) =~= Set::<(int, int)>::empty(),
                prune_spec(orig, cset@) == prune_spec(self.path@, cset@),
            decreases self.path.elems@.len(),
        {
            let ghost cur = self.path@;
            proof {
                crate::coords::lemma_coord_seq_card(self.path.elems@);
            }
            let ghost cur_card = self.path.elems@.len() as int;
            let n = self.path.len();
            let mut dead = CoordSet::new();
            let mut k: usize = 0;
            proof {
                assert(dead@ =~= dead_ends(cur, cset@).intersect(
                    crate::coords::coord_seq_view(self.path.elems@.take(0)),
                ));
            }
            while k < n
                invariant
                    k <= n,
                    n == self.path.elems@.len(),
                    self.path.wf(),
                    cset.wf(),
                    dead.wf(),
                    cur == self.path@,
                    dead@ == dead_ends(cur, cset@).intersect(
                        crate::coords::coord_seq_view(self.path.elems@.take(k as int)),
                    ),
                decreases n - k,
            {
                let (px, py) = self.path.get(k);
                let e = exit_count_exec(&self.path, &cset, px, py);
                let ghost pre = dead@;
                if e == 1 {
                    dead.insert(px, py);
                }
                proof {
                    let es = self.path.elems@;
                    assert(es.take(k as int + 1) =~= es.take(k as int).push(es[k as int]));
                    crate::coords::lemma_coord_push(es.take(k as int), es[k as int]);
                    assert(cur.contains((px as int, py as int)));
                    if e == 1 {
                        assert(dead@ =~= dead_ends(cur, cset@).intersect(
                            crate::coords::coord_seq_view(es.take(k as int + 1)),
                        ));
                    } else {
                        assert(dead@ =~= dead_ends(cur, cset@).intersect(
                            crate::coords::coord_seq_view(es.take(k as int + 1)),
                        ));
                    }
                }
                k = k + 1;
            }
            proof {
                let es = self.path.elems@;
                assert(es.take(es.len() as int) =~= es);
                assert(dead@ =~= dead_ends(cur, cset@)) by {
                    assert forall|p: (int, int)| dead_ends(cur, cset@).contains(p) implies
                        dead@.contains(p) by {
                        assert(cur.contains(p));
                    }
                }
            }
            if dead.len() == 0 {
                proof {
                    crate::coords::lemma_coord_seq_card(dead.elems@);
                    assert(dead@ =~= Set::<(int, int)>::empty());
                    assert(dead_ends(cur, cset@) =~= Set::<(int, int)>::empty());
                }
                break;
            }
            let mut keep: Vec<(u32, u32)> = Vec::new();
            let mut m: usize = 0;
            proof {
                assert(crate::coords::coord_seq_view(keep@) =~= crate::coords::coord_seq_view(
                    self.path.elems@.take(0),
                ).difference(dead@));
            }
            while m < n
                invariant
                    m <= n,
                    n == self.path.elems@.len(),
                    self.path.wf(),
                    dead.wf(),
                    cur == self.path@,
                    keep@.len() <= m,
                    forall|i: int, j: int|
                        0 <= i < j < keep@.len() ==> #[trigger] keep@[i] != #[trigger] keep@[j],
                    crate::coords::coord_seq_view(keep@) == crate::coords::coord_seq_view(
                        self.path.elems@.take(m as int),
                    ).difference(dead@),
                    forall|i: int|
                        0 <= i < keep@.len() ==> cur.contains(
                            ((#[trigger] keep@[i]).0 as int, keep@[i].1 as int),
                        ) && !dead@.contains((keep@[i].0 as int, keep@[i].1 as int)),
                decreases n - m,
            {
                let (px, py) = self.path.get(m);
                let ghost keep0 = keep@;
                if !dead.contains(px, py) {
                    keep.push((px, py));
                    proof {
                        assert forall|i: int, j: int|
                            0 <= i < j < keep@.len() implies #[trigger] keep@[i]
                            != #[trigger] keep@[j] by {
                            if j == keep@.len() - 1 {
                                assert(crate::coords::coord_seq_view(keep0).contains(
                                    (keep@[i].0 as int, keep@[i].1 as int),
                                ));
                                assert(crate::coords::coord_seq_view(
                                    self.path.elems@.take(m as int),
                                ).contains((keep@[i].0 as int, keep@[i].1 as int)));
                                if keep@[i] == keep@[j] {
                                    let es = self.path.elems@;
                                    let t = choose|t: int|
                                        0 <= t < m && (#[trigger] es.take(m as int)[t]).0 as int
                                            == px as int && es.take(m as int)[t].1 as int
                                            == py as int;
                                    assert(es[t] == es[m as int]);
                                }
                            }
                        }
                        crate::coords::lemma_coord_push(keep0, (px, py));
                    }
                }
                proof {
                    let es = self.path.elems@;
                    assert(es.take(m as int + 1) =~= es.take(m as int).push(es[m as int]));
                    crate::coords::lemma_coord_push(es.take(m as int), es[m as int]);
                    assert(crate::coords::coord_seq_view(keep@) =~= crate::coords::coord_seq_view(
                        es.take(m as int + 1),
                    ).difference(dead@));
                }
                m = m + 1;
            }
            proof {
                let es = self.path.elems@;
                assert(es.take(es.len() as int) =~= es);
                assert(crate::coords::coord_seq_view(keep@) =~= cur.difference(dead@));
            }
            let ghost pre_len = self.path.elems@.len();
            self.path = CoordSet { elems: keep };
            proof {
                assert(self.path@ == cur.difference(dead_ends(cur, cset@)));
                assert(!(dead_ends(cur, cset@) =~= Set::<(int, int)>::empty())) by {
                    crate::coords::lemma_coord_seq_card(dead.elems@);
                    assert(dead@.len() > 0);
                    assert(dead@.contains(dead@.choose()));
                }
                assert(prune_spec(cur, cset@) == prune_spec(self.path@, cset@));
                crate::coords::lemma_coord_seq_card(self.path.elems@);
                crate::coords::lemma_coord_seq_card(dead.elems@);
                vstd::set_lib::lemma_len_subset(self.path@, cur);
                assert(self.path.elems@.len() < pre_len) by {
                    let x = dead@.choose();
                    assert(dead@.contains(x));
                    assert(cur.contains(x));
                    assert(!self.path@.contains(x));
                    assert(self.path@.subset_of(cur.remove(x)));
                    vstd::set_lib::lemma_len_subset(self.path@, cur.remove(x));
                    assert(cur.len() == cur_card && cur_card == pre_len);
                }
            }
        }
    }
}

/// Whether one kept connector joins both regions directly.
pub open spec fn related(conns: Seq<Connector>, a: int, b: int) -> bool {
    exists|k: int|
        0 <= k < conns.len() && (#[trigger] conns[k]).regions@.contains(a)
            && conns[k].regions@.contains(b)
}

/// A chain of regions, each pair joined by one kept connector.
pub open spec fn is_region_chain(conns: Seq<Connector>, p: Seq<int>) -> bool {
    &&& p.len() >= 1
    &&& (forall|i: int| 0 <= i < p.len() - 1 ==> related(conns, #[trigger] p[i], p[i + 1]))
}

/// Whether the kept connectors join `a` to `b` at all.
pub open spec fn linked(conns: Seq<Connector>, a: int, b: int) -> bool {
    exists|p: Seq<int>| #[trigger] is_region_chain(conns, p) && p.first() == a && p.last() == b
}

/// A region is linked to itself.
pub proof fn lemma_linked_refl(conns: Seq<Connector>, a: int)
    ensures
        linked(conns, a, a),
{
    let p = seq![a];
    assert(is_region_chain(conns, p));
    assert(p.first() == a && p.last() == a);
}

/// One more direct join extends a link.
pub proof fn lemma_linked_step(conns: Seq<Connector>, a: int, b: int, c: int)
    requires
        linked(conns, a, b),
        related(conns, b, c),
    ensures
        linked(conns, a, c),
{
    let p = choose|p: Seq<int>| #[trigger] is_region_chain(conns, p) && p.first() == a && p.last()
        == b;
    let q = p.push(c);
    assert(is_region_chain(conns, q)) by {
        assert(forall|i: int| 0 <= i < p.len() ==> q[i] == p[i]);
        assert(q[q.len() - 1] == c);
        assert forall|i: int| 0 <= i < q.len() - 1 implies related(conns, #[trigger] q[i], q[i + 1]) by {
            if i < p.len() - 1 {
                assert(related(conns, p[i], p[i + 1]));
            } else {
                assert(q[i] == p.last() && q[i + 1] == c);
            }
        }
    }
    assert(q.first() == a && q.last() == c);
}

/// Links compose.
pub proof fn lemma_linked_trans(conns: Seq<Connector>, a: int, b: int, c: int)
    requires
        linked(conns, a, b),
        linked(conns, b, c),
    ensures
        linked(conns, a, c),
{
    let p1 = choose|p: Seq<int>| #[trigger] is_region_chain(conns, p) && p.first() == a && p.last()
        == b;
    let p2 = choose|p: Seq<int>| #[trigger] is_region_chain(conns, p) && p.first() == b && p.last()
        == c;
    if p2.len() == 1 {
        assert(b == c);
    } else {
        let q = p1 + p2.subrange(1, p2.len() as int);
        let n1 = p1.len() as int;
        assert(q.len() == n1 + p2.len() - 1);
        assert(forall|i: int| 0 <= i < n1 ==> q[i] == p1[i]);
        assert(forall|i: int| n1 <= i < q.len() ==> q[i] == p2[i - n1 + 1]);
        assert(is_region_chain(conns, q)) by {
            assert forall|i: int| 0 <= i < q.len() - 1 implies related(
                conns,
                #[trigger] q[i],
                q[i + 1],
            ) by {
                if i < n1 - 1 {
                    assert(related(conns, p1[i], p1[i + 1]));
                } else if i == n1 - 1 {
                    assert(q[i] == p1.last() && q[i + 1] == p2[1]);
                    assert(related(conns, p2[0], p2[1]));
                } else {
                    assert(q[i] == p2[i - n1 + 1] && q[i + 1] == p2[i - n1 + 2]);
                    assert(related(conns, p2[i - n1 + 1], p2[i - n1 + 2]));
                }
            }
        }
        assert(q.first() == a && q.last() == c);
    }
}

/// Links run both ways.
pub proof fn lemma_linked_sym(conns: Seq<Connector>, a: int, b: int)
    requires
        linked(conns, a, b),
    ensures
        linked(conns, b, a),
{
    let p = choose|p: Seq<int>| #[trigger] is_region_chain(conns, p) && p.first() == a && p.last()
        == b;
    let n = p.len() as int;
    let q = Seq::new(p.len(), |i: int| p[n - 1 - i]);
    assert(is_region_chain(conns, q)) by {
        assert forall|i: int| 0 <= i < q.len() - 1 implies related(conns, #[trigger] q[i], q[i + 1]) by {
            assert(q[i] == p[n - 1 - i] && q[i + 1] == p[n - 2 - i]);
            assert(related(conns, p[n - 2 - i], p[n - 1 - i]));
            let k = choose|k: int|
                0 <= k < conns.len() && (#[trigger] conns[k]).regions@.contains(p[n - 2 - i])
                    && conns[k].regions@.contains(p[n - 1 - i]);
            assert(related(conns, p[n - 1 - i], p[n - 2 - i]));
        }
    }
    assert(q.first() == b && q.last() == a);
}

/// A link survives when more connectors are kept after it.
pub proof fn lemma_linked_grows(conns1: Seq<Connector>, conns2: Seq<Connector>, a: int, b: int)
    requires
        linked(conns1, a, b),
        conns2.len() >= conns1.len(),
        forall|k: int| 0 <= k < conns1.len() ==> conns2[k] == conns1[k],
    ensures
        linked(conns2, a, b),
{
    let p = choose|p: Seq<int>| #[trigger] is_region_chain(conns1, p) && p.first() == a && p.last()
        == b;
    assert(is_region_chain(conns2, p)) by {
        assert forall|i: int| 0 <= i < p.len() - 1 implies related(conns2, #[trigger] p[i], p[i + 1]) by {
            assert(related(conns1, p[i], p[i + 1]));
            let k = choose|k: int|
                0 <= k < conns1.len() && (#[trigger] conns1[k]).regions@.contains(p[i])
                    && conns1[k].regions@.contains(p[i + 1]);
            assert(conns2[k] == conns1[k]);
        }
    }
}

/// Whether a connector carries the same location and region set as
/// one of the input connectors.
pub open spec fn from_input(cs: Seq<Connector>, c: Connector) -> bool {
    exists|i: int|
        0 <= i < cs.len() && c.location == (#[trigger] cs[i]).location && c.regions@
            == cs[i].regions@
}

/// Whether a connector still spans two representative classes.
pub open spec fn two_classes(rep: Seq<u32>, regions: Set<int>) -> bool {
    exists|r1: int, r2: int|
        regions.contains(r1) && regions.contains(r2) && 0 <= r1 < rep.len() && 0 <= r2 < rep.len()
            && #[trigger] rep[r1] != #[trigger] rep[r2]
}

/// Whether some connector of the list names this region.
pub open spec fn region_named(cs: Seq<Connector>, a: int) -> bool {
    exists|k: int| 0 <= k < cs.len() && (#[trigger] cs[k]).regions@.contains(a)
}

/// The set of region ids the connectors name.
pub open spec fn named_regions(cs: Seq<Connector>) -> Set<int> {
    Set::new(|r: int| region_named(cs, r))
}

/// Whether the connectors join every region they name to every other:
/// the region hypergraph, one edge per connector, is connected.
pub open spec fn input_connected(cs: Seq<Connector>) -> bool {
    forall|a: int, b: int| region_named(cs, a) && region_named(cs, b) ==> linked(cs, a, b)
}

/// Whether every region of the set answers to one class.
pub open spec fn single_class(rep: Seq<u32>, regions: Set<int>) -> bool {
    forall|r1: int, r2: int|
        regions.contains(r1) && regions.contains(r2) && 0 <= r1 < rep.len() && 0 <= r2 < rep.len()
            ==> #[trigger] rep[r1] == #[trigger] rep[r2]
}

/// Whether some named region's class is this value.
pub open spec fn class_inhabited(cs: Seq<Connector>, rep: Seq<u32>, v: int) -> bool {
    exists|a: int|
        region_named(cs, a) && 0 <= a < rep.len() && ((#[trigger] rep[a]) as int) == v
}

/// Whether a connector with this location and region set stands in the
/// list.
pub open spec fn listed_conn(cur: Seq<Connector>, c: Connector) -> bool {
    exists|k: int|
        0 <= k < cur.len() && (#[trigger] cur[k]).location == c.location && cur[k].regions@
            == c.regions@
}

/// Whether some connector among the first `n` shares this location.
pub open spec fn loc_among(cs: Seq<Connector>, n: int, c: Connector) -> bool {
    exists|j: int| 0 <= j < n && j < cs.len() && (#[trigger] cs[j]).location == c.location
}

/// Whether the connectors sit on pairwise-distinct cells.
pub open spec fn locations_distinct(cs: Seq<Connector>) -> bool {
    forall|i: int, j: int|
        0 <= i < j < cs.len() ==> (#[trigger] cs[i]).location != (#[trigger] cs[j]).location
}

/// A chain through connectors whose regions each answer to one class
/// stays inside that class.
proof fn lemma_chain_same_class(cs: Seq<Connector>, rep: Seq<u32>, p: Seq<int>, i: int)
    requires
        is_region_chain(cs, p),
        forall|k: int| 0 <= k < cs.len() ==> single_class(rep, (#[trigger] cs[k]).regions@),
        forall|k: int, r: int|
            0 <= k < cs.len() && #[trigger] cs[k].regions@.contains(r) ==> 0 <= r < rep.len(),
        p.len() >= 2,
        0 <= i < p.len(),
    ensures
        0 <= p[i] < rep.len(),
        rep[p[0]] == rep[p[i]],
    decreases i,
{
    if i == 0 {
        assert(related(cs, p[0], p[1]));
        let k = choose|k: int|
            0 <= k < cs.len() && (#[trigger] cs[k]).regions@.contains(p[0])
                && cs[k].regions@.contains(p[1]);
        assert(cs[k].regions@.contains(p[0]));
    } else {
        lemma_chain_same_class(cs, rep, p, i - 1);
        assert(related(cs, p[i - 1], p[i]));
        let k = choose|k: int|
            0 <= k < cs.len() && (#[trigger] cs[k]).regions@.contains(p[i - 1])
                && cs[k].regions@.contains(p[i]);
        assert(single_class(rep, cs[k].regions@));
        assert(rep[p[i - 1]] == rep[p[i]]);
    }
}

/// Once a single open class remains, the kept connectors link every
/// region the input names.
proof fn lemma_merge_complete_links(
    connectors: Seq<Connector>,
    kept: Seq<Connector>,
    rep: Seq<u32>,
    open_elems: Seq<u32>,
    region_count: int,
)
    requires
        rep.len() == region_count,
        open_elems.len() <= 1,
        forall|r: int| 0 <= r < region_count ==> linked(kept, r, (#[trigger] rep[r]) as int),
        forall|a: int| region_named(connectors, a) ==> 0 <= a < region_count,
        forall|a: int|
            region_named(connectors, a) ==> crate::coords::region_seq_view(open_elems).contains(
                (rep[a]) as int,
            ),
    ensures
        forall|a: int, b: int|
            region_named(connectors, a) && region_named(connectors, b) ==> linked(kept, a, b),
{
    assert forall|a: int, b: int|
        region_named(connectors, a) && region_named(connectors, b) implies linked(kept, a, b) by {
        assert(crate::coords::region_seq_view(open_elems).contains((rep[a]) as int));
        assert(crate::coords::region_seq_view(open_elems).contains((rep[b]) as int));
        assert(rep[a] == rep[b]) by {
            let ka = choose|k: int|
                0 <= k < open_elems.len() && (#[trigger] open_elems[k]) as int == (rep[a]) as int;
            let kb = choose|k: int|
                0 <= k < open_elems.len() && (#[trigger] open_elems[k]) as int == (rep[b]) as int;
            assert(ka == 0 && kb == 0);
        }
        assert(linked(kept, a, (rep[a]) as int));
        assert(linked(kept, b, (rep[b]) as int));
        lemma_linked_sym(kept, b, (rep[b]) as int);
        lemma_linked_trans(kept, a, (rep[a]) as int, b);
    }
}

/// When every connector's regions answer to one class, linked regions
/// share that class.
proof fn lemma_single_classes_bound_links(cs: Seq<Connector>, rep: Seq<u32>, a: int, b: int)
    requires
        linked(cs, a, b),
        forall|k: int| 0 <= k < cs.len() ==> single_class(rep, (#[trigger] cs[k]).regions@),
        forall|k: int, r: int|
            0 <= k < cs.len() && #[trigger] cs[k].regions@.contains(r) ==> 0 <= r < rep.len(),
        0 <= a < rep.len(),
        0 <= b < rep.len(),
    ensures
        rep[a] == rep[b],
{
    let p = choose|p: Seq<int>| #[trigger] is_region_chain(cs, p) && p.first() == a && p.last()
        == b;
    if p.len() >= 2 {
        lemma_chain_same_class(cs, rep, p, p.len() - 1);
    }
}

impl Connector {
    /// Join regions through randomly picked connectors, in the manner
    /// of a randomized spanning construction: pick a connector, merge
    /// every region it names into one representative, keep it, drop
    /// connectors that no longer span two classes, and repeat. The
    /// second result says whether a single class remained; it is true
    /// whenever the input hypergraph is connected, and when it is true
    /// the kept connectors join every region the input names. At most
    /// one connector is kept per region beyond the first, and distinct
    /// input locations stay distinct among the kept.
    #[verifier::rlimit(100)]
    #[verifier::spinoff_prover]
    pub fn merge(
        rng: &mut rand::rngs::StdRng,
        connectors: &Vec<Connector>,
        region_count: u32,
    ) -> (res: (Vec<Connector>, bool))
        requires
            forall|k: int|
                0 <= k < connectors@.len() ==> (#[trigger] connectors@[k]).regions.wf()
                    && connectors@[k].regions.elems@.len() >= 2,
            forall|k: int, r: int|
                0 <= k < connectors@.len() && #[trigger] connectors@[k].regions@.contains(r)
                    ==> 0 <= r < region_count,
        ensures
            forall|k: int|
                0 <= k < res.0@.len() ==> from_input(connectors@, #[trigger] res.0@[k]),
            res.1 ==> forall|a: int, b: int|
                region_named(connectors@, a) && region_named(connectors@, b) ==> linked(
                    res.0@,
                    a,
                    b,
                ),
            input_connected(connectors@) ==> res.1,
            named_regions(connectors@).len() >= 1 ==> res.0@.len() <= named_regions(
                connectors@,
            ).len() - 1,
            named_regions(connectors@).len() == 0 ==> res.0@.len() == 0,
            locations_distinct(connectors@) ==> locations_distinct(res.0@),
    {
        let mut rep: Vec<u32> = Vec::new();
        let mut i: u32 = 0;
        while i < region_count
            invariant
                i <= region_count,
                rep@.len() == i,
                forall|r: int| 0 <= r < i ==> (#[trigger] rep@[r]) == r,
            decreases region_count - i,
        {
            rep.push(i);
            i = i + 1;
        }
        let mut open = RegionSet::new();
        let mut ci: usize = 0;
        while ci < connectors.len()
            invariant
                ci <= connectors@.len(),
                open.wf(),
                forall|k: int, r: int|
                    0 <= k < connectors@.len() && #[trigger] connectors@[k].regions@.contains(r)
                        ==> 0 <= r < region_count,
                forall|k: int, r: int|
                    0 <= k < ci && #[trigger] connectors@[k].regions@.contains(r)
                        ==> open@.contains(r),
                forall|r: int| open@.contains(r) ==> 0 <= r < region_count,
                forall|r: int| open@.contains(r) ==> region_named(connectors@, r),
            decreases connectors@.len() - ci,
        {
            let c = &connectors[ci];
            let mut rj: usize = 0;
            while rj < c.regions.elems.len()
                invariant
                    rj <= c.regions.elems@.len(),
                    open.wf(),
                    c == connectors@[ci as int],
                    ci < connectors@.len(),
                    forall|k: int, r: int|
                        0 <= k < connectors@.len() && #[trigger] connectors@[k].regions@.contains(r) ==> 0 <= r < region_count,
                    forall|k: int, r: int|
                        0 <= k < ci && #[trigger] connectors@[k].regions@.contains(r)
                            ==> open@.contains(r),
                    forall|t: int|
                        0 <= t < rj ==> open@.contains(
                            (#[trigger] c.regions.elems@[t]) as int,
                        ),
                    forall|r: int| open@.contains(r) ==> 0 <= r < region_count,
                    forall|r: int| open@.contains(r) ==> region_named(connectors@, r),
                decreases c.regions.elems@.len() - rj,
            {
                let rv = c.regions.elems[rj];
                proof {
                    assert(c.regions@.contains(rv as int));
                    assert(region_named(connectors@, rv as int));
                }
                open.insert(rv);
                rj = rj + 1;
            }
            proof {
                assert forall|r: int| (#[trigger] connectors@[ci as int].regions@.contains(r))
                    implies open@.contains(r) by {
                    let t = choose|t: int|
                        0 <= t < c.regions.elems@.len() && (#[trigger] c.regions.elems@[t]) as int
                            == r;
                    assert(open@.contains(c.regions.elems@[t] as int));
                }
            }
            ci = ci + 1;
        }
        proof {
            assert(open@ =~= named_regions(connectors@)) by {
                assert forall|r: int| named_regions(connectors@).contains(r) implies open@.contains(
                    r,
                ) by {
                    let k = choose|k: int|
                        0 <= k < connectors@.len() && (#[trigger] connectors@[k]).regions@.contains(
                            r,
                        );
                }
            }
            crate::coords::lemma_region_seq_card(open.elems@);
        }
        let ghost init_count = open.elems@.len() as int;
        let mut current: Vec<Connector> = Vec::new();
        let mut k0: usize = 0;
        while k0 < connectors.len()
            invariant
                k0 <= connectors@.len(),
                current@.len() == k0,
                forall|k: int|
                    0 <= k < connectors@.len() ==> (#[trigger] connectors@[k]).regions.wf()
                        && connectors@[k].regions.elems@.len() >= 2,
                forall|k: int|
                    0 <= k < k0 ==> (#[trigger] current@[k]).location == connectors@[k].location
                        && current@[k].regions@ == connectors@[k].regions@
                        && current@[k].regions.wf() && current@[k].regions.elems@
                        == connectors@[k].regions.elems@,
            decreases connectors@.len() - k0,
        {
            let ghost cur0 = current@;
            current.push(connectors[k0].clone());
            proof {
                assert(current@[k0 as int].location == connectors@[k0 as int].location
                    && current@[k0 as int].regions@ == connectors@[k0 as int].regions@
                    && current@[k0 as int].regions.elems@
                    == connectors@[k0 as int].regions.elems@);
                assert(current@[k0 as int].regions.wf()) by {
                    assert(connectors@[k0 as int].regions.wf());
                }
                assert forall|k: int|
                    0 <= k < k0 + 1 implies (#[trigger] current@[k]).location
                    == connectors@[k].location && current@[k].regions@ == connectors@[k].regions@
                    && current@[k].regions.wf() && current@[k].regions.elems@
                    == connectors@[k].regions.elems@ by {
                    if k < k0 {
                        assert(current@[k] == cur0[k]);
                    }
                }
            }
            k0 = k0 + 1;
        }
        proof {
            assert forall|k: int| 0 <= k < current@.len() implies two_classes(
                rep@,
                (#[trigger] current@[k]).regions@,
            ) by {
                let es = current@[k].regions.elems@;
                let r1: int = es[0] as int;
                let r2: int = es[1] as int;
                assert(current@[k].regions@.contains(r1) && current@[k].regions@.contains(r2));
                assert(es[0] != es[1]);
                assert(connectors@[k].regions@.contains(r1) && connectors@[k].regions@.contains(
                    r2,
                ));
                assert(rep@[r1] == r1 && rep@[r2] == r2);
            }
            assert forall|k: int| 0 <= k < connectors@.len() implies listed_conn(
                current@,
                #[trigger] connectors@[k],
            ) by {
                assert((#[trigger] current@[k]).location == connectors@[k].location);
            }
        }
        let mut kept: Vec<Connector> = Vec::new();
        proof {
            assert forall|r: int| 0 <= r < region_count implies linked(
                kept@,
                r,
                (#[trigger] rep@[r]) as int,
            ) by {
                lemma_linked_refl(kept@, r);
                assert(rep@[r] == r);
            }
            assert forall|v: int| open@.contains(v) implies class_inhabited(
                connectors@,
                rep@,
                v,
            ) by {
                assert(region_named(connectors@, v));
                assert(0 <= v < region_count);
                assert(((rep@[v]) as int) == v);
            }
        }
        let complete: bool;
        loop
            invariant
                open.wf(),
                rep@.len() == region_count,
                init_count == named_regions(connectors@).len(),
                forall|r: int| 0 <= r < region_count ==> (#[trigger] rep@[r]) < region_count,
                forall|r: int|
                    0 <= r < region_count ==> linked(kept@, r, (#[trigger] rep@[r]) as int),
                forall|k: int| 0 <= k < kept@.len() ==> from_input(connectors@, #[trigger] kept@[k]),
                forall|k: int|
                    0 <= k < current@.len() ==> from_input(connectors@, #[trigger] current@[k])
                        && current@[k].regions.wf() && current@[k].regions.elems@.len() >= 1,
                forall|k: int, r: int|
                    0 <= k < current@.len() && #[trigger] current@[k].regions@.contains(r) ==> 0
                        <= r < region_count,
                forall|k: int|
                    0 <= k < current@.len() ==> two_classes(
                        rep@,
                        (#[trigger] current@[k]).regions@,
                    ),
                forall|a: int| region_named(connectors@, a) ==> 0 <= a < region_count,
                forall|a: int|
                    region_named(connectors@, a) ==> open@.contains((rep@[a]) as int),
                forall|r: int| open@.contains(r) ==> 0 <= r < region_count,
                forall|v: int| open@.contains(v) ==> class_inhabited(connectors@, rep@, v),
                forall|k: int|
                    0 <= k < connectors@.len() ==> listed_conn(current@, #[trigger] connectors@[k])
                        || single_class(rep@, connectors@[k].regions@),
                kept@.len() + open.elems@.len() <= init_count,
                init_count >= 1 ==> open.elems@.len() >= 1,
                locations_distinct(connectors@) ==> locations_distinct(kept@) && (forall|
                    kk: int,
                    cc: int,
                |
                    0 <= kk < kept@.len() && 0 <= cc < current@.len() ==> (
                    #[trigger] kept@[kk]).location != (#[trigger] current@[cc]).location),
            ensures
                open.wf(),
                forall|k: int| 0 <= k < kept@.len() ==> from_input(connectors@, #[trigger] kept@[k]),
                forall|r: int|
                    0 <= r < region_count ==> linked(kept@, r, (#[trigger] rep@[r]) as int),
                forall|a: int|
                    region_named(connectors@, a) ==> open@.contains((rep@[a]) as int),
                forall|a: int| region_named(connectors@, a) ==> 0 <= a < region_count,
                rep@.len() == region_count,
                complete ==> open.elems@.len() <= 1,
                !complete ==> !input_connected(connectors@),
                kept@.len() + open.elems@.len() <= init_count,
                init_count >= 1 ==> open.elems@.len() >= 1,
                init_count == named_regions(connectors@).len(),
                locations_distinct(connectors@) ==> locations_distinct(kept@),
            decreases open.elems@.len(),
        {
            if open.len() <= 1 {
                complete = true;
                break;
            }
            if current.len() == 0 {
                // no connector spans two classes any more: if the input
                // hypergraph were connected, two open classes could not
                // remain
                proof {
                    assert forall|k: int|
                        0 <= k < connectors@.len() implies single_class(
                        rep@,
                        (#[trigger] connectors@[k]).regions@,
                    ) by {
                        assert(!listed_conn(current@, connectors@[k]));
                    }
                    if input_connected(connectors@) {
                        let v1: int = open.elems@[0] as int;
                        let v2: int = open.elems@[1] as int;
                        assert(open.elems@[0] != open.elems@[1]);
                        assert(open@.contains(v1) && open@.contains(v2));
                        assert(class_inhabited(connectors@, rep@, v1));
                        assert(class_inhabited(connectors@, rep@, v2));
                        let a = choose|a: int|
                            region_named(connectors@, a) && 0 <= a < rep@.len() && ((
                            #[trigger] rep@[a]) as int) == v1;
                        let b = choose|b: int|
                            region_named(connectors@, b) && 0 <= b < rep@.len() && ((
                            #[trigger] rep@[b]) as int) == v2;
                        assert(linked(connectors@, a, b));
                        assert forall|k: int, r: int|
                            0 <= k < connectors@.len() && #[trigger] connectors@[k].regions@.contains(
                                r,
                            ) implies 0 <= r < rep@.len() by {
                            assert(region_named(connectors@, r));
                        }
                        lemma_single_classes_bound_links(connectors@, rep@, a, b);
                        assert(false);
                    }
                }
                complete = false;
                break;
            }
            let pick = index_below(rng, current.len());
            let conn = current[pick].clone();
            let ghost conn_regions = conn.regions@;
            proof {
                assert(two_classes(rep@, conn_regions));
                assert(forall|r: int| conn_regions.contains(r) ==> 0 <= r < region_count);
            }
            let ghost rep_at_pick = rep@;
            // relabel the regions the connector names
            let rn = conn.regions.elems.len();
            let mut relabeled: Vec<u32> = Vec::new();
            let mut t: usize = 0;
            while t < rn
                invariant
                    t <= rn,
                    rn == conn.regions.elems@.len(),
                    rn >= 1,
                    conn.regions.wf(),
                    rep@.len() == region_count,
                    forall|r: int| 0 <= r < region_count ==> (#[trigger] rep@[r]) < region_count,
                    forall|r: int| conn.regions@.contains(r) ==> 0 <= r < region_count,
                    relabeled@.len() == t,
                    forall|j: int|
                        0 <= j < t ==> (#[trigger] relabeled@[j]) == rep@[conn.regions.elems@[j] as int],
                decreases rn - t,
            {
                let rv = conn.regions.elems[t];
                proof {
                    assert(conn.regions@.contains(rv as int));
                }
                relabeled.push(rep[rv as usize]);
                t = t + 1;
            }
            let first = relabeled[rn - 1];
            let ghost rlast: int = conn.regions.elems@[rn as int - 1] as int;
            proof {
                assert(conn.regions@.contains(rlast));
                assert(relabeled@[rn as int - 1] == rep@[rlast]);
                assert(first < region_count);
            }
            let mut rest = RegionSet::new();
            let mut t2: usize = 0;
            while t2 < rn - 1
                invariant
                    t2 <= rn - 1,
                    rn == conn.regions.elems@.len(),
                    rn >= 1,
                    rest.wf(),
                    relabeled@.len() == rn,
                    first == relabeled@[rn as int - 1],
                    forall|v: int|
                        rest@.contains(v) ==> v != first && exists|j: int|
                            0 <= j < rn - 1 && (#[trigger] relabeled@[j]) as int == v,
                    forall|j: int|
                        0 <= j < t2 && (#[trigger] relabeled@[j]) != first ==> rest@.contains(
                            relabeled@[j] as int,
                        ),
                decreases rn - 1 - t2,
            {
                let v = relabeled[t2];
                if v != first {
                    rest.insert(v);
                }
                t2 = t2 + 1;
            }
            // keep the connector
            let ghost kept0 = kept@;
            kept.push(conn.clone());
            proof {
                assert(kept@ == kept0.push(kept@.last()));
                assert(kept@.last().regions@ == conn_regions);
                assert(kept@.last().location == conn.location);
                assert(from_input(connectors@, current@[pick as int]));
                assert(from_input(connectors@, kept@.last())) by {
                    let i = choose|i: int|
                        0 <= i < connectors@.len() && current@[pick as int].location == (
                        #[trigger] connectors@[i]).location && current@[pick as int].regions@
                            == connectors@[i].regions@;
                    assert(kept@.last().location == connectors@[i].location);
                }
                assert forall|r: int| 0 <= r < region_count implies linked(
                    kept@,
                    r,
                    (#[trigger] rep@[r]) as int,
                ) by {
                    lemma_linked_grows(kept0, kept@, r, rep@[r] as int);
                }
                if locations_distinct(connectors@) {
                    assert forall|i2: int, j2: int|
                        0 <= i2 < j2 < kept@.len() implies (#[trigger] kept@[i2]).location != (
                        #[trigger] kept@[j2]).location by {
                        if j2 == kept@.len() - 1 {
                            assert(kept@[i2] == kept0[i2]);
                            assert(kept0[i2].location != current@[pick as int].location);
                        }
                    }
                }
            }
            // point every class that the connector reaches at `first`
            let ghost rep0 = rep@;
            let mut ri: usize = 0;
            while ri < rep.len()
                invariant
                    ri <= rep@.len(),
                    rep@.len() == region_count,
                    rep0.len() == region_count,
                    first < region_count,
                    rest.wf(),
                    conn.regions.wf(),
                    rn == conn.regions.elems@.len(),
                    rn >= 1,
                    relabeled@.len() == rn,
                    first == relabeled@[rn as int - 1],
                    rlast == conn.regions.elems@[rn as int - 1] as int,
                    conn_regions == conn.regions@,
                    kept@.len() >= 1,
                    kept@.last().regions@ == conn_regions,
                    forall|j: int|
                        0 <= j < rn ==> (#[trigger] relabeled@[j]) == rep0[conn.regions.elems@[j] as int],
                    forall|v: int|
                        rest@.contains(v) ==> v != first && exists|j: int|
                            0 <= j < rn - 1 && (#[trigger] relabeled@[j]) as int == v,
                    forall|j: int|
                        0 <= j < rn - 1 && (#[trigger] relabeled@[j]) != first ==> rest@.contains(
                            relabeled@[j] as int,
                        ),
                    forall|r: int| 0 <= r < region_count ==> (#[trigger] rep0[r]) < region_count,
                    forall|r: int| 0 <= r < region_count ==> linked(kept@, r, (#[trigger] rep0[r]) as int),
                    forall|r: int| conn_regions.contains(r) ==> 0 <= r < region_count,
                    forall|r: int|
                        0 <= r < region_count ==> (#[trigger] rep@[r]) == (if rest@.contains(
                            rep0[r] as int,
                        ) && r < ri {
                            first
                        } else {
                            rep0[r]
                        }),
                decreases rep@.len() - ri,
            {
                let oldr = rep[ri];
                if rest.contains(oldr) {
                    rep.set(ri, first);
                }
                ri = ri + 1;
            }
            proof {
                lemma_linked_refl(kept@, rlast);
                assert(linked(kept@, rlast, rep0[rlast] as int)) by {
                    assert(conn_regions.contains(rlast));
                }
                assert(rep0[rlast] == first);
                // every region the connector names now answers to `first`
                assert forall|r: int| conn_regions.contains(r) implies (#[trigger] rep@[r])
                    == first by {
                    let j = choose|j: int|
                        0 <= j < conn.regions.elems@.len() && (#[trigger] conn.regions.elems@[j]) as int
                            == r;
                    assert(relabeled@[j] == rep0[r]);
                    if rep0[r] != first {
                        assert(j != rn - 1);
                        assert(rest@.contains(rep0[r] as int));
                    }
                }
                assert forall|r: int| 0 <= r < region_count implies linked(
                    kept@,
                    r,
                    (#[trigger] rep@[r]) as int,
                ) by {
                    if rep@[r] == rep0[r] {
                    } else {
                        assert(rest@.contains(rep0[r] as int));
                        let j = choose|j: int|
                            0 <= j < rn - 1 && (#[trigger] relabeled@[j]) as int == rep0[r] as int;
                        let r0: int = conn.regions.elems@[j] as int;
                        assert(conn_regions.contains(r0));
                        assert(rep0[r0] as int == rep0[r] as int);
                        assert(linked(kept@, r, rep0[r] as int));
                        assert(linked(kept@, r0, rep0[r0] as int));
                        lemma_linked_sym(kept@, r0, rep0[r0] as int);
                        lemma_linked_trans(kept@, r, rep0[r] as int, r0);
                        assert(related(kept@, r0, rlast)) by {
                            let kk = kept@.len() - 1;
                            assert((#[trigger] kept@[kk]).regions@.contains(r0));
                            assert(kept@[kk].regions@.contains(rlast));
                        }
                        lemma_linked_step(kept@, r, r0, rlast);
                        assert(linked(kept@, rlast, first as int));
                        lemma_linked_trans(kept@, r, rlast, first as int);
                    }
                }
                // a set that answered to one class still does
                assert forall|k: int|
                    0 <= k < connectors@.len() && single_class(
                        rep0,
                        (#[trigger] connectors@[k]).regions@,
                    ) implies single_class(rep@, connectors@[k].regions@) by {
                    assert forall|r1: int, r2: int|
                        connectors@[k].regions@.contains(r1) && connectors@[k].regions@.contains(
                            r2,
                        ) && 0 <= r1 < rep@.len() && 0 <= r2 < rep@.len() implies #[trigger] rep@[r1]
                        == #[trigger] rep@[r2] by {
                        assert(rep0[r1] == rep0[r2]);
                    }
                }
            }
            // shrink the open set: the merged classes leave
            proof {
                crate::coords::lemma_region_seq_card(open.elems@);
            }
            let ghost open0 = open@;
            let ghost pre_open_len = open.elems@.len() as int;
            let mut new_open_elems: Vec<u32> = Vec::new();
            let mut oi: usize = 0;
            proof {
                assert(crate::coords::region_seq_view(new_open_elems@)
                    =~= crate::coords::region_seq_view(open.elems@.take(0)).difference(rest@));
            }
            while oi < open.elems.len()
                invariant
                    oi <= open.elems@.len(),
                    open.wf(),
                    rest.wf(),
                    open0 == open@,
                    forall|i2: int, j2: int|
                        0 <= i2 < j2 < new_open_elems@.len() ==> #[trigger] new_open_elems@[i2]
                            != #[trigger] new_open_elems@[j2],
                    crate::coords::region_seq_view(new_open_elems@)
                        == crate::coords::region_seq_view(open.elems@.take(oi as int)).difference(
                        rest@,
                    ),
                    new_open_elems@.len() <= oi,
                decreases open.elems@.len() - oi,
            {
                let v = open.elems[oi];
                let ghost pre = new_open_elems@;
                if !rest.contains(v) {
                    new_open_elems.push(v);
                    proof {
                        assert forall|i2: int, j2: int|
                            0 <= i2 < j2 < new_open_elems@.len() implies
                            #[trigger] new_open_elems@[i2] != #[trigger] new_open_elems@[j2] by {
                            if j2 == new_open_elems@.len() - 1 {
                                assert(crate::coords::region_seq_view(pre).contains(
                                    new_open_elems@[i2] as int,
                                ));
                                assert(crate::coords::region_seq_view(
                                    open.elems@.take(oi as int),
                                ).contains(new_open_elems@[i2] as int));
                                if new_open_elems@[i2] == new_open_elems@[j2] {
                                    let es = open.elems@;
                                    let t3 = choose|t3: int|
                                        0 <= t3 < oi && (#[trigger] es.take(oi as int)[t3]) as int
                                            == v as int;
                                    assert(es[t3] == es[oi as int]);
                                }
                            }
                        }
                        crate::coords::lemma_region_push(pre, v);
                    }
                }
                proof {
                    let es = open.elems@;
                    assert(es.take(oi as int + 1) =~= es.take(oi as int).push(es[oi as int]));
                    crate::coords::lemma_region_push(es.take(oi as int), es[oi as int]);
                    assert(crate::coords::region_seq_view(new_open_elems@)
                        =~= crate::coords::region_seq_view(es.take(oi as int + 1)).difference(
                        rest@,
                    ));
                }
                oi = oi + 1;
            }
            proof {
                let es = open.elems@;
                assert(es.take(es.len() as int) =~= es);
            }
            open = RegionSet { elems: new_open_elems };
            proof {
                assert(open@ =~= open0.difference(rest@));
            }
            // every region still answers, through its class, to the open set
            proof {
                assert forall|a: int| region_named(connectors@, a) implies open@.contains(
                    (rep@[a]) as int,
                ) by {
                    if rest@.contains(rep_at_pick[a] as int) {
                        assert(rep@[a] == first);
                        assert(rep_at_pick[rlast] == first) by {
                            assert(conn_regions.contains(rlast));
                        }
                        assert(region_named(connectors@, rlast)) by {
                            assert(from_input(connectors@, current@[pick as int]));
                            let i3 = choose|i3: int|
                                0 <= i3 < connectors@.len() && current@[pick as int].location == (
                                #[trigger] connectors@[i3]).location
                                    && current@[pick as int].regions@ == connectors@[i3].regions@;
                            assert(connectors@[i3].regions@.contains(rlast));
                        }
                        assert(open0.contains(first as int));
                        assert(!rest@.contains(first as int));
                    } else {
                        assert(rep@[a] == rep_at_pick[a]);
                        assert(open0.contains(rep_at_pick[a] as int));
                    }
                }
                assert forall|v: int| open@.contains(v) implies class_inhabited(
                    connectors@,
                    rep@,
                    v,
                ) by {
                    assert(open0.contains(v));
                    assert(class_inhabited(connectors@, rep_at_pick, v));
                    let a = choose|a: int|
                        region_named(connectors@, a) && 0 <= a < rep_at_pick.len() && ((
                        #[trigger] rep_at_pick[a]) as int) == v;
                    assert(!rest@.contains(v));
                    assert(rep@[a] as int == v);
                }
            }
            // the open set truly shrank: a merged class left it
            proof {
                crate::coords::lemma_region_seq_card(open.elems@);
                let (r1, r2) = choose|r1: int, r2: int|
                    conn_regions.contains(r1) && conn_regions.contains(r2) && 0 <= r1
                        < rep_at_pick.len() && 0 <= r2 < rep_at_pick.len()
                        && #[trigger] rep_at_pick[r1] != #[trigger] rep_at_pick[r2];
                let rdiff: int = if rep_at_pick[r1] != first {
                    r1
                } else {
                    r2
                };
                assert(rep_at_pick[rdiff] != first) by {
                    assert(rep_at_pick[rlast] == first) by {
                        assert(conn_regions.contains(rlast));
                    }
                }
                let j = choose|j: int|
                    0 <= j < conn.regions.elems@.len() && (#[trigger] conn.regions.elems@[j]) as int
                        == rdiff;
                assert(relabeled@[j] == rep_at_pick[rdiff]);
                assert(j != rn - 1);
                assert(rest@.contains(rep_at_pick[rdiff] as int));
                assert(region_named(connectors@, rdiff)) by {
                    assert(from_input(connectors@, current@[pick as int]));
                    let i3 = choose|i3: int|
                        0 <= i3 < connectors@.len() && current@[pick as int].location == (
                        #[trigger] connectors@[i3]).location && current@[pick as int].regions@
                            == connectors@[i3].regions@;
                    assert(connectors@[i3].regions@.contains(rdiff));
                }
                assert(open0.contains(rep_at_pick[rdiff] as int));
                assert(!open@.contains(rep_at_pick[rdiff] as int));
                assert(open@.subset_of(open0.remove(rep_at_pick[rdiff] as int)));
                vstd::set_lib::lemma_len_subset(open@, open0.remove(rep_at_pick[rdiff] as int));
                assert(open.elems@.len() < pre_open_len);
                // `first` stays, so the open set never empties
                assert(open@.contains(first as int)) by {
                    assert(region_named(connectors@, rlast));
                    assert(rep@[rlast] == first);
                }
                assert(open.elems@.len() >= 1) by {
                    assert(crate::coords::region_seq_view(open.elems@).contains(first as int));
                    let kk = choose|kk: int|
                        0 <= kk < open.elems@.len() && ((#[trigger] open.elems@[kk]) as int)
                            == first as int;
                }
            }
            // rebuild the list of connectors still spanning two classes
            let mut new_current: Vec<Connector> = Vec::new();
            let mut ni: usize = 0;
            while ni < current.len()
                invariant
                    ni <= current@.len(),
                    rep@.len() == region_count,
                    conn_regions == conn.regions@,
                    forall|r: int| conn_regions.contains(r) ==> (#[trigger] rep@[r]) == first,
                    forall|k: int|
                        0 <= k < current@.len() ==> from_input(connectors@, #[trigger] current@[k])
                            && current@[k].regions.wf() && current@[k].regions.elems@.len() >= 1,
                    forall|k: int, r: int|
                        0 <= k < current@.len() && #[trigger] current@[k].regions@.contains(r)
                            ==> 0 <= r < region_count,
                    forall|k: int|
                        0 <= k < new_current@.len() ==> from_input(
                            connectors@,
                            #[trigger] new_current@[k],
                        ) && new_current@[k].regions.wf() && new_current@[k].regions.elems@.len()
                            >= 1,
                    forall|k: int, r: int|
                        0 <= k < new_current@.len() && #[trigger] new_current@[k].regions@.contains(r) ==> 0 <= r < region_count,
                    forall|k: int|
                        0 <= k < new_current@.len() ==> two_classes(
                            rep@,
                            (#[trigger] new_current@[k]).regions@,
                        ),
                    forall|k: int|
                        0 <= k < ni ==> listed_conn(new_current@, #[trigger] current@[k])
                            || single_class(rep@, current@[k].regions@),
                    forall|k: int|
                        0 <= k < new_current@.len() ==> listed_conn(
                            current@,
                            #[trigger] new_current@[k],
                        ),
                    locations_distinct(connectors@) ==> (forall|k: int|
                        0 <= k < new_current@.len() ==> (#[trigger] new_current@[k]).location
                            != conn.location),
                    pick < current@.len(),
                    from_input(connectors@, current@[pick as int]),
                    current@[pick as int].location == conn.location,
                    current@[pick as int].regions@ == conn_regions,
                decreases current@.len() - ni,
            {
                let ghost nc0 = new_current@;
                let c = &current[ni];
                let mut classes = RegionSet::new();
                let mut t4: usize = 0;
                while t4 < c.regions.elems.len()
                    invariant
                        t4 <= c.regions.elems@.len(),
                        classes.wf(),
                        c == current@[ni as int],
                        ni < current@.len(),
                        rep@.len() == region_count,
                        c.regions.wf(),
                        forall|r: int| c.regions@.contains(r) ==> 0 <= r < region_count,
                        forall|v: int|
                            classes@.contains(v) ==> exists|r: int|
                                c.regions@.contains(r) && 0 <= r < region_count
                                    && (#[trigger] rep@[r]) as int == v,
                        forall|t5: int|
                            0 <= t5 < t4 ==> classes@.contains(
                                (rep@[(#[trigger] c.regions.elems@[t5]) as int]) as int,
                            ),
                    decreases c.regions.elems@.len() - t4,
                {
                    let rv = c.regions.elems[t4];
                    proof {
                        assert(c.regions@.contains(rv as int));
                    }
                    classes.insert(rep[rv as usize]);
                    t4 = t4 + 1;
                }
                if classes.len() >= 2 {
                    let ghost cv = classes@;
                    proof {
                        crate::coords::lemma_region_seq_card(classes.elems@);
                        assert(cv.len() >= 2);
                        assert(classes.elems@.len() >= 2);
                        let v1: int = classes.elems@[0] as int;
                        let v2: int = classes.elems@[1] as int;
                        assert(classes.elems@[0] != classes.elems@[1]);
                        assert(cv.contains(v1) && cv.contains(v2));
                        let ra = choose|r: int|
                            c.regions@.contains(r) && 0 <= r < region_count && (#[trigger] rep@[r]) as int
                                == v1;
                        let rb = choose|r: int|
                            c.regions@.contains(r) && 0 <= r < region_count && (#[trigger] rep@[r]) as int
                                == v2;
                        assert(rep@[ra] != rep@[rb]);
                        assert(two_classes(rep@, c.regions@));
                        if locations_distinct(connectors@) {
                            // a connector on the picked cell carries the
                            // picked regions, which now sit in one class
                            if c.location == conn.location {
                                assert(from_input(connectors@, *c));
                                assert(from_input(connectors@, current@[pick as int]));
                                let ic = choose|i2: int|
                                    0 <= i2 < connectors@.len() && c.location == (
                                    #[trigger] connectors@[i2]).location && c.regions@
                                        == connectors@[i2].regions@;
                                let ip = choose|i2: int|
                                    0 <= i2 < connectors@.len() && current@[pick as int].location
                                        == (#[trigger] connectors@[i2]).location
                                        && current@[pick as int].regions@
                                        == connectors@[i2].regions@;
                                assert(connectors@[ic].location == c.location);
                                assert(connectors@[ip].location == conn.location);
                                assert(ic == ip) by {
                                    if ic < ip {
                                        assert(connectors@[ic].location
                                            != connectors@[ip].location);
                                    } else if ip < ic {
                                        assert(connectors@[ip].location
                                            != connectors@[ic].location);
                                    }
                                }
                                assert(c.regions@ == conn_regions);
                                assert(rep@[ra] == first && rep@[rb] == first);
                                assert(false);
                            }
                        }
                    }
                    new_current.push(c.clone());
                    proof {
                        assert(listed_conn(current@, new_current@[new_current@.len() - 1])) by {
                            assert((#[trigger] current@[ni as int]).location
                                == new_current@[new_current@.len() - 1].location);
                        }
                    }
                } else {
                    proof {
                        crate::coords::lemma_region_seq_card(classes.elems@);
                        assert(single_class(rep@, c.regions@)) by {
                            assert forall|r1: int, r2: int|
                                c.regions@.contains(r1) && c.regions@.contains(r2) && 0 <= r1
                                    < rep@.len() && 0 <= r2 < rep@.len() implies #[trigger] rep@[r1]
                                == #[trigger] rep@[r2] by {
                                let ta = choose|ta: int|
                                    0 <= ta < c.regions.elems@.len() && (
                                    #[trigger] c.regions.elems@[ta]) as int == r1;
                                let tb = choose|tb: int|
                                    0 <= tb < c.regions.elems@.len() && (
                                    #[trigger] c.regions.elems@[tb]) as int == r2;
                                assert(classes@.contains((rep@[r1]) as int));
                                assert(classes@.contains((rep@[r2]) as int));
                                let ka = choose|kk: int|
                                    0 <= kk < classes.elems@.len() && ((
                                    #[trigger] classes.elems@[kk]) as int) == (rep@[r1]) as int;
                                let kb = choose|kk: int|
                                    0 <= kk < classes.elems@.len() && ((
                                    #[trigger] classes.elems@[kk]) as int) == (rep@[r2]) as int;
                                assert(classes.elems@.len() <= 1);
                                assert(ka == 0 && kb == 0);
                            }
                        }
                    }
                }
                proof {
                    assert forall|k: int|
                        0 <= k < ni + 1 implies listed_conn(new_current@, #[trigger] current@[k])
                        || single_class(rep@, current@[k].regions@) by {
                        if k < ni {
                            if listed_conn(nc0, current@[k]) {
                                let kn = choose|kn: int|
                                    0 <= kn < nc0.len() && (#[trigger] nc0[kn]).location
                                        == current@[k].location && nc0[kn].regions@
                                        == current@[k].regions@;
                                assert((#[trigger] new_current@[kn]).location
                                    == current@[k].location);
                            }
                        } else {
                            if new_current@.len() > nc0.len() {
                                let kn = new_current@.len() - 1;
                                assert((#[trigger] new_current@[kn]).location
                                    == current@[k].location);
                            }
                        }
                    }
                }
                ni = ni + 1;
            }
            // every input connector is still tracked or fully merged
            proof {
                assert forall|k: int|
                    0 <= k < connectors@.len() implies listed_conn(
                    new_current@,
                    #[trigger] connectors@[k],
                ) || single_class(rep@, connectors@[k].regions@) by {
                    if listed_conn(current@, connectors@[k]) {
                        let kc = choose|kc: int|
                            0 <= kc < current@.len() && (#[trigger] current@[kc]).location
                                == connectors@[k].location && current@[kc].regions@
                                == connectors@[k].regions@;
                        assert(listed_conn(new_current@, current@[kc]) || single_class(
                            rep@,
                            current@[kc].regions@,
                        ));
                        if listed_conn(new_current@, current@[kc]) {
                            let kn = choose|kn: int|
                                0 <= kn < new_current@.len() && (#[trigger] new_current@[kn]).location
                                    == current@[kc].location && new_current@[kn].regions@
                                    == current@[kc].regions@;
                            assert((#[trigger] new_current@[kn]).location
                                == connectors@[k].location);
                        }
                    } else {
                        assert(single_class(rep_at_pick, connectors@[k].regions@));
                        assert(single_class(rep@, connectors@[k].regions@));
                    }
                }
            }
            current = new_current;
            proof {
                if locations_distinct(connectors@) {
                    assert forall|kk: int, cc: int|
                        0 <= kk < kept@.len() && 0 <= cc < current@.len() implies (
                        #[trigger] kept@[kk]).location != (#[trigger] current@[cc]).location by {
                        if kk < kept@.len() - 1 {
                            assert(listed_conn(current@, current@[cc]));
                        } else {
                            assert(kept@[kk].location == conn.location);
                        }
                    }
                }
            }
        }
        proof {
            if complete {
                lemma_merge_complete_links(
                    connectors@,
                    kept@,
                    rep@,
                    open.elems@,
                    region_count as int,
                );
            }
        }
        (kept, complete)
    }
}

/// Whether some maze path or room border covers `p`.
pub open spec fn covered(ms: Seq<Maze>, rs: Seq<Room>, p: (int, int)) -> bool {
    (exists|i: int| 0 <= i < ms.len() && (#[trigger] ms[i]).path@.contains(p)) || (exists|i: int|
        0 <= i < rs.len() && (#[trigger] rs[i]).on_border(p.0, p.1))
}

/// Whether some maze or room carries this region id.
pub open spec fn region_id_of_some(ms: Seq<Maze>, rs: Seq<Room>, rr: int) -> bool {
    (exists|i: int| 0 <= i < ms.len() && (#[trigger] ms[i]).region == rr) || (exists|i: int|
        0 <= i < rs.len() && (#[trigger] rs[i]).region == rr)
}

/// The region of the first maze whose path covers `p`, if any.
pub open spec fn maze_region_at(ms: Seq<Maze>, p: (int, int)) -> Option<int>
    decreases ms.len(),
{
    if ms.len() == 0 {
        None
    } else if ms.first().path@.contains(p) {
        Some(ms.first().region as int)
    } else {
        maze_region_at(ms.drop_first(), p)
    }
}

/// The region of the first room whose border ring covers `p`, if any.
pub open spec fn border_region_at(rs: Seq<Room>, p: (int, int)) -> Option<int>
    decreases rs.len(),
{
    if rs.len() == 0 {
        None
    } else if rs.first().on_border(p.0, p.1) {
        Some(rs.first().region as int)
    } else {
        border_region_at(rs.drop_first(), p)
    }
}

/// The region covering `p`: mazes are looked up first, then room
/// borders.
pub open spec fn region_at(ms: Seq<Maze>, rs: Seq<Room>, p: (int, int)) -> Option<int> {
    match maze_region_at(ms, p) {
        Some(r) => Some(r),
        None => border_region_at(rs, p),
    }
}

/// Whether two cardinal neighbors of `p` resolve to distinct regions.
pub open spec fn distinct_adjacent_regions(ms: Seq<Maze>, rs: Seq<Room>, p: (int, int)) -> bool {
    exists|d1: (int, int), d2: (int, int)|
        cardinal_dir(d1) && cardinal_dir(d2) && (#[trigger] region_at(
            ms,
            rs,
            (p.0 + d1.0, p.1 + d1.1),
        )) is Some && (#[trigger] region_at(ms, rs, (p.0 + d2.0, p.1 + d2.1))) is Some && region_at(
            ms,
            rs,
            (p.0 + d1.0, p.1 + d1.1),
        )->0 != region_at(ms, rs, (p.0 + d2.0, p.1 + d2.1))->0
}

/// Whether some returned connector sits on `p`.
pub open spec fn conn_at(cs: Seq<Connector>, p: (int, int)) -> bool {
    exists|k: int|
        0 <= k < cs.len() && ((#[trigger] cs[k]).location.0 as int, cs[k].location.1 as int) == p
}

/// A recorded cell stays recorded as the list grows at the end.
proof fn lemma_conn_at_grows(pre: Seq<Connector>, cur: Seq<Connector>, p: (int, int))
    requires
        conn_at(pre, p),
        cur.len() >= pre.len(),
        forall|k: int| 0 <= k < pre.len() ==> cur[k] == pre[k],
    ensures
        conn_at(cur, p),
{
    let kq = choose|kq: int|
        0 <= kq < pre.len() && ((#[trigger] pre[kq]).location.0 as int, pre[kq].location.1 as int)
            == p;
    assert(((#[trigger] cur[kq]).location.0 as int, cur[kq].location.1 as int) == p);
}

/// The border test with signed coordinates.
fn on_border_exec(room: &Room, px: i64, py: i64) -> (r: bool)
    ensures
        r == room.on_border(px as int, py as int),
{
    px >= room.x as i64 && px < room.x as i64 + room.w as i64 && py >= room.y as i64 && py
        < room.y as i64 + room.h as i64 && (px == room.x as i64 || px == room.x as i64
        + room.w as i64 - 1 || py == room.y as i64 || py == room.y as i64 + room.h as i64 - 1)
}

/// The region covering a cell, scanning mazes first, then room
/// borders, or nothing when the cell is empty.
fn region_of(mazes: &Vec<Maze>, rooms: &Vec<Room>, px: i64, py: i64) -> (r: Option<u32>)
    ensures
        r is Some <==> covered(mazes@, rooms@, (px as int, py as int)),
        r is Some <==> region_at(mazes@, rooms@, (px as int, py as int)) is Some,
        r is Some ==> r->0 as int == region_at(mazes@, rooms@, (px as int, py as int))->0,
        r is Some ==> region_id_of_some(mazes@, rooms@, r->0 as int),
{
    let ghost p: (int, int) = (px as int, py as int);
    let mut i: usize = 0;
    proof {
        assert(mazes@.skip(0) =~= mazes@);
    }
    while i < mazes.len()
        invariant
            i <= mazes@.len(),
            maze_region_at(mazes@, p) == maze_region_at(mazes@.skip(i as int), p),
            p == (px as int, py as int),
            forall|k: int| 0 <= k < i ==> !(#[trigger] mazes@[k]).path@.contains(p),
        decreases mazes@.len() - i,
    {
        proof {
            assert(mazes@.skip(i as int).first() == mazes@[i as int]);
            assert(mazes@.skip(i as int).drop_first() =~= mazes@.skip(i as int + 1));
        }
        if contains_i64(&mazes[i].path, px, py) {
            proof {
                assert(mazes@[i as int].path@.contains(p));
            }
            return Some(mazes[i].region);
        }
        i = i + 1;
    }
    proof {
        assert(mazes@.skip(mazes@.len() as int).len() == 0);
        assert(maze_region_at(mazes@, p) is None);
        assert(rooms@.skip(0) =~= rooms@);
    }
    let mut j: usize = 0;
    while j < rooms.len()
        invariant
            j <= rooms@.len(),
            p == (px as int, py as int),
            maze_region_at(mazes@, p) is None,
            forall|k: int| 0 <= k < mazes@.len() ==> !(#[trigger] mazes@[k]).path@.contains(p),
            border_region_at(rooms@, p) == border_region_at(rooms@.skip(j as int), p),
            forall|k: int| 0 <= k < j ==> !(#[trigger] rooms@[k]).on_border(p.0, p.1),
        decreases rooms@.len() - j,
    {
        proof {
            assert(rooms@.skip(j as int).first() == rooms@[j as int]);
            assert(rooms@.skip(j as int).drop_first() =~= rooms@.skip(j as int + 1));
        }
        if on_border_exec(&rooms[j], px, py) {
            proof {
                assert(rooms@[j as int].on_border(p.0, p.1));
            }
            return Some(rooms[j].region);
        }
        j = j + 1;
    }
    proof {
        assert(rooms@.skip(rooms@.len() as int).len() == 0);
        assert(border_region_at(rooms@, p) is None);
    }
    None
}

/// Every connector of a list is well formed against its sources: it
/// sits on an empty in-range cell and joins two or more region ids
/// that mazes or rooms actually carry.
pub open spec fn connectors_wf(cs: Seq<Connector>, ms: Seq<Maze>, rs: Seq<Room>) -> bool {
    forall|k: int|
        0 <= k < cs.len() ==> ({
            &&& (#[trigger] cs[k]).regions.wf()
            &&& cs[k].regions.elems@.len() >= 2
            &&& cs[k].location.0 <= 0x1_0000
            &&& cs[k].location.1 <= 0x1_0000
            &&& !covered(ms, rs, (cs[k].location.0 as int, cs[k].location.1 as int))
            &&& (forall|rr: int|
                #[trigger] cs[k].regions@.contains(rr) ==> region_id_of_some(ms, rs, rr))
        })
}

impl Connector {
    /// Find every connector: an empty cell in or just beyond the grid
    /// whose cardinal neighbors resolve to two or more distinct
    /// regions. The result records exactly those cells, each once, in
    /// row-major order.
    pub fn find_all(mazes: &Vec<Maze>, rooms: &Vec<Room>, width: u32, height: u32) -> (r: Vec<
        Connector,
    >)
        requires
            width <= 0xFFFF,
            height <= 0xFFFF,
            forall|i: int|
                0 <= i < mazes@.len() ==> (#[trigger] mazes@[i]).path.wf() && (forall|p: (int, int)|
                    #[trigger] mazes@[i].path@.contains(p) ==> 0 <= p.0 < width && 0 <= p.1
                        < height),
            forall|i: int|
                0 <= i < rooms@.len() ==> (#[trigger] rooms@[i]).x + rooms@[i].w <= width
                    && rooms@[i].y + rooms@[i].h <= height && rooms@[i].w >= 1 && rooms@[i].h >= 1,
        ensures
            connectors_wf(r@, mazes@, rooms@),
            forall|k: int|
                0 <= k < r@.len() ==> distinct_adjacent_regions(
                    mazes@,
                    rooms@,
                    ((#[trigger] r@[k]).location.0 as int, r@[k].location.1 as int),
                ),
            forall|p: (int, int)|
                0 <= p.0 <= width && 0 <= p.1 <= height && !covered(mazes@, rooms@, p)
                    && #[trigger] distinct_adjacent_regions(mazes@, rooms@, p) ==> conn_at(r@, p),
            locations_distinct(r@),
    {
        let mut connectors: Vec<Connector> = Vec::new();
        let dirs: Vec<(i32, i32)> = vec![(0, 1), (1, 0), (0, -1), (-1, 0)];
        let mut cx: u32 = 0;
        while cx <= width
            invariant
                cx <= width + 1,
                width <= 0xFFFF,
                height <= 0xFFFF,
                dirs@.len() == 4,
                dirs@[0] == (0i32, 1i32) && dirs@[1] == (1i32, 0i32) && dirs@[2] == (0i32, -1i32)
                    && dirs@[3] == (-1i32, 0i32),
                connectors_wf(connectors@, mazes@, rooms@),
                forall|k: int|
                    0 <= k < connectors@.len() ==> distinct_adjacent_regions(
                        mazes@,
                        rooms@,
                        ((#[trigger] connectors@[k]).location.0 as int,
                        connectors@[k].location.1 as int),
                    ),
                forall|p: (int, int)|
                    0 <= p.0 < cx && 0 <= p.1 <= height && !covered(mazes@, rooms@, p)
                        && #[trigger] distinct_adjacent_regions(mazes@, rooms@, p) ==> conn_at(
                        connectors@,
                        p,
                    ),
                forall|k: int|
                    0 <= k < connectors@.len() ==> ((#[trigger] connectors@[k]).location.0 as int)
                        < cx,
                locations_distinct(connectors@),
            decreases width + 1 - cx,
        {
            let mut cy: u32 = 0;
            while cy <= height
                invariant
                    cx <= width,
                    cy <= height + 1,
                    width <= 0xFFFF,
                    height <= 0xFFFF,
                    dirs@.len() == 4,
                    dirs@[0] == (0i32, 1i32) && dirs@[1] == (1i32, 0i32) && dirs@[2] == (
                    0i32,
                    -1i32,
                    ) && dirs@[3] == (-1i32, 0i32),
                    connectors_wf(connectors@, mazes@, rooms@),
                    forall|k: int|
                        0 <= k < connectors@.len() ==> distinct_adjacent_regions(
                            mazes@,
                            rooms@,
                            ((#[trigger] connectors@[k]).location.0 as int,
                            connectors@[k].location.1 as int),
                        ),
                    forall|p: (int, int)|
                        0 <= p.0 < cx && 0 <= p.1 <= height && !covered(mazes@, rooms@, p)
                            && #[trigger] distinct_adjacent_regions(mazes@, rooms@, p) ==> conn_at(
                            connectors@,
                            p,
                        ),
                    forall|p: (int, int)|
                        p.0 == cx && 0 <= p.1 < cy && !covered(mazes@, rooms@, p)
                            && #[trigger] distinct_adjacent_regions(mazes@, rooms@, p) ==> conn_at(
                            connectors@,
                            p,
                        ),
                    forall|k: int|
                        0 <= k < connectors@.len() ==> ((
                        #[trigger] connectors@[k]).location.0 as int) < cx || (
                        connectors@[k].location.0 as int == cx
                            && (connectors@[k].location.1 as int) < cy),
                    locations_distinct(connectors@),
                decreases height + 1 - cy,
            {
                let ghost p: (int, int) = (cx as int, cy as int);
                let here = region_of(mazes, rooms, cx as i64, cy as i64);
                if here.is_none() {
                    let mut regions = RegionSet::new();
                    let mut k: usize = 0;
                    while k < 4
                        invariant
                            k <= 4,
                            regions.wf(),
                            p == (cx as int, cy as int),
                            cx <= 0xFFFF,
                            cy <= 0xFFFF,
                            dirs@.len() == 4,
                            dirs@[0] == (0i32, 1i32) && dirs@[1] == (1i32, 0i32) && dirs@[2] == (
                            0i32,
                            -1i32,
                            ) && dirs@[3] == (-1i32, 0i32),
                            forall|v: int|
                                regions@.contains(v) ==> (exists|d: (int, int)|
                                    cardinal_dir(d) && (#[trigger] region_at(
                                        mazes@,
                                        rooms@,
                                        (p.0 + d.0, p.1 + d.1),
                                    )) == Some(v)) && region_id_of_some(mazes@, rooms@, v),
                            forall|m: int|
                                0 <= m < k && (#[trigger] region_at(
                                    mazes@,
                                    rooms@,
                                    (p.0 + dirs@[m].0, p.1 + dirs@[m].1),
                                )) is Some ==> regions@.contains(
                                    region_at(
                                        mazes@,
                                        rooms@,
                                        (p.0 + dirs@[m].0, p.1 + dirs@[m].1),
                                    )->0,
                                ),
                        decreases 4 - k,
                    {
                        let d = dirs[k];
                        let (nx, ny) = scale((cx, cy), d, 1);
                        match region_of(mazes, rooms, nx, ny) {
                            Some(r2) => {
                                regions.insert(r2);
                                proof {
                                    assert(cardinal_dir((d.0 as int, d.1 as int)));
                                    assert(region_at(
                                        mazes@,
                                        rooms@,
                                        (p.0 + d.0, p.1 + d.1),
                                    ) == Some(r2 as int));
                                }
                            },
                            None => {},
                        }
                        k = k + 1;
                    }
                    let ghost pre = connectors@;
                    if regions.len() >= 2 {
                        proof {
                            crate::coords::lemma_region_seq_card(regions.elems@);
                            let v1: int = regions.elems@[0] as int;
                            let v2: int = regions.elems@[1] as int;
                            assert(regions.elems@[0] != regions.elems@[1]);
                            assert(regions@.contains(v1) && regions@.contains(v2));
                            let d1 = choose|d: (int, int)|
                                cardinal_dir(d) && (#[trigger] region_at(
                                    mazes@,
                                    rooms@,
                                    (p.0 + d.0, p.1 + d.1),
                                )) == Some(v1);
                            let d2 = choose|d: (int, int)|
                                cardinal_dir(d) && (#[trigger] region_at(
                                    mazes@,
                                    rooms@,
                                    (p.0 + d.0, p.1 + d.1),
                                )) == Some(v2);
                            assert(distinct_adjacent_regions(mazes@, rooms@, p));
                        }
                        connectors.push(Connector::new((cx, cy), &regions));
                        proof {
                            assert(connectors@[connectors@.len() - 1].location == (cx, cy));
                            assert forall|k2: int|
                                0 <= k2 < connectors@.len() implies ({
                                &&& (#[trigger] connectors@[k2]).regions.wf()
                                &&& connectors@[k2].regions.elems@.len() >= 2
                                &&& connectors@[k2].location.0 <= 0x1_0000
                                &&& connectors@[k2].location.1 <= 0x1_0000
                                &&& !covered(
                                    mazes@,
                                    rooms@,
                                    (connectors@[k2].location.0 as int,
                                    connectors@[k2].location.1 as int),
                                )
                                &&& (forall|rr: int|
                                    #[trigger] connectors@[k2].regions@.contains(rr)
                                        ==> region_id_of_some(mazes@, rooms@, rr))
                            }) by {
                                if k2 < pre.len() {
                                    assert(connectors@[k2] == pre[k2]);
                                }
                            }
                        }
                    }
                    proof {
                        if !distinct_adjacent_regions(mazes@, rooms@, p) {
                        } else {
                            let (d1, d2) = choose|d1: (int, int), d2: (int, int)|
                                cardinal_dir(d1) && cardinal_dir(d2) && (#[trigger] region_at(
                                    mazes@,
                                    rooms@,
                                    (p.0 + d1.0, p.1 + d1.1),
                                )) is Some && (#[trigger] region_at(
                                    mazes@,
                                    rooms@,
                                    (p.0 + d2.0, p.1 + d2.1),
                                )) is Some && region_at(mazes@, rooms@, (p.0 + d1.0, p.1 + d1.1))->0
                                    != region_at(mazes@, rooms@, (p.0 + d2.0, p.1 + d2.1))->0;
                            let m1: int = if d1 == (0int, 1int) {
                                0
                            } else if d1 == (1int, 0int) {
                                1
                            } else if d1 == (0int, -1int) {
                                2
                            } else {
                                3
                            };
                            let m2: int = if d2 == (0int, 1int) {
                                0
                            } else if d2 == (1int, 0int) {
                                1
                            } else if d2 == (0int, -1int) {
                                2
                            } else {
                                3
                            };
                            assert((dirs@[m1].0 as int, dirs@[m1].1 as int) == d1);
                            assert((dirs@[m2].0 as int, dirs@[m2].1 as int) == d2);
                            assert(regions@.contains(
                                region_at(mazes@, rooms@, (p.0 + d1.0, p.1 + d1.1))->0,
                            ));
                            assert(regions@.contains(
                                region_at(mazes@, rooms@, (p.0 + d2.0, p.1 + d2.1))->0,
                            ));
                            crate::coords::lemma_region_seq_card(regions.elems@);
                            assert(regions@.len() >= 2) by {
                                vstd::set_lib::lemma_len_subset(
                                    Set::<int>::empty().insert(
                                        region_at(mazes@, rooms@, (p.0 + d1.0, p.1 + d1.1))->0,
                                    ).insert(
                                        region_at(mazes@, rooms@, (p.0 + d2.0, p.1 + d2.1))->0,
                                    ),
                                    regions@,
                                );
                            }
                            assert(regions.elems@.len() >= 2);
                            assert(conn_at(connectors@, p)) by {
                                assert(((#[trigger] connectors@[connectors@.len() - 1]).location.0 as int,
                                connectors@[connectors@.len() - 1].location.1 as int) == p);
                            }
                        }
                        assert forall|q: (int, int)|
                            q.0 == cx && 0 <= q.1 < cy + 1 && !covered(mazes@, rooms@, q)
                                && #[trigger] distinct_adjacent_regions(mazes@, rooms@, q) implies
                            conn_at(connectors@, q) by {
                            if q.1 < cy {
                                lemma_conn_at_grows(pre, connectors@, q);
                            }
                        }
                        assert forall|q: (int, int)|
                            0 <= q.0 < cx && 0 <= q.1 <= height && !covered(mazes@, rooms@, q)
                                && #[trigger] distinct_adjacent_regions(mazes@, rooms@, q) implies
                            conn_at(connectors@, q) by {
                            lemma_conn_at_grows(pre, connectors@, q);
                        }
                    }
                } else {
                    proof {
                        assert(covered(mazes@, rooms@, p));
                        assert forall|q: (int, int)|
                            q.0 == cx && 0 <= q.1 < cy + 1 && !covered(mazes@, rooms@, q)
                                && #[trigger] distinct_adjacent_regions(mazes@, rooms@, q) implies
                            conn_at(connectors@, q) by {}
                    }
                }
                cy = cy + 1;
            }
            proof {
                assert forall|q: (int, int)|
                    0 <= q.0 < cx + 1 && 0 <= q.1 <= height && !covered(mazes@, rooms@, q)
                        && #[trigger] distinct_adjacent_regions(mazes@, rooms@, q) implies conn_at(
                    connectors@,
                    q,
                ) by {}
            }
            cx = cx + 1;
        }
        connectors
    }
}

/// The room-and-maze genotype: configuration, the placed rooms, the
/// carved mazes, the kept connectors, the chosen entrance and exit,
/// and the pre-rolled occupants.
#[derive(Debug)]
pub struct DesirableProperties {
    pub seed: Seed,
    pub room_number: u32,
    pub room_size: u32,
    pub doors: u32,
    pub monsters: u32,
    pub branching_pct: u32,
    pub occupants: Vec<(Occupant, (u32, u32))>,
    pub rooms: Vec<Room>,
    pub mazes: Vec<Maze>,
    pub connectors: Vec<Connector>,
    pub entrance: Option<(u32, u32)>,
    pub exit: Option<(u32, u32)>,
}

impl DesirableProperties {
    /// Everything `generate` stamps lies on the grid and the seed's
    /// catalog holds every tile it needs.
    pub open spec fn wf(self) -> bool {
        &&& self.seed.wf()
        &&& self.room_number >= 1
        &&& self.room_number <= 0xFFFF
        &&& self.room_size >= 4
        &&& self.room_size + 1 <= self.seed.width
        &&& self.room_size + 1 <= self.seed.height
        &&& self.branching_pct <= 100
        &&& self.seed.tiles.has_name("floor"@)
        &&& self.seed.tiles.has_name("wall"@)
        &&& self.seed.tiles.has_name("door"@)
        &&& self.seed.tiles.has_name("entrance"@)
        &&& self.seed.tiles.has_name("exit"@)
        &&& (forall|i: int|
            0 <= i < self.rooms@.len() ==> (#[trigger] self.rooms@[i]).wf(
                self.seed.width as int,
                self.seed.height as int,
            ))
        &&& (forall|i: int, j: int|
            0 <= i < j < self.rooms@.len() ==> !(#[trigger] self.rooms@[i]).overlaps(
                #[trigger] self.rooms@[j],
            ))
        &&& (forall|i: int|
            0 <= i < self.mazes@.len() ==> (#[trigger] self.mazes@[i]).path.wf() && (forall|
                p: (int, int),
            |
                #[trigger] self.mazes@[i].path@.contains(p) ==> 0 <= p.0 < self.seed.width && 0
                    <= p.1 < self.seed.height))
        &&& (forall|k: int|
            0 <= k < self.connectors@.len() ==> (#[trigger] self.connectors@[k]).location.0
                < self.seed.width && self.connectors@[k].location.1 < self.seed.height)
        &&& (self.entrance is Some ==> (self.entrance->0).0 < self.seed.width && (
        self.entrance->0).1 < self.seed.height)
        &&& (self.exit is Some ==> (self.exit->0).0 < self.seed.width && (self.exit->0).1
            < self.seed.height)
        &&& (forall|k: int|
            0 <= k < self.occupants@.len() ==> (#[trigger] self.occupants@[k]).1.0
                < self.seed.width && self.occupants@[k].1.1 < self.seed.height
                && self.seed.occupants.contains_tag(self.occupants@[k].0))
    }

    /// A blank genotype around a seed and its configuration.
    pub fn new(
        seed: &Seed,
        room_number: u32,
        room_size: u32,
        doors: u32,
        monsters: u32,
        branching_pct: u32,
    ) -> (r: DesirableProperties)
        requires
            seed.wf(),
            1 <= room_number <= 0xFFFF,
            room_size >= 4,
            room_size + 1 <= seed.width,
            room_size + 1 <= seed.height,
            branching_pct <= 100,
            seed.tiles.has_name("floor"@),
            seed.tiles.has_name("wall"@),
            seed.tiles.has_name("door"@),
            seed.tiles.has_name("entrance"@),
            seed.tiles.has_name("exit"@),
        ensures
            r.wf(),
            r.seed.width == seed.width,
            r.seed.height == seed.height,
            r.rooms@.len() == 0,
            r.mazes@.len() == 0,
            r.connectors@.len() == 0,
            r.occupants@.len() == 0,
            r.entrance is None,
            r.exit is None,
            r.room_number == room_number,
            r.room_size == room_size,
            r.doors == doors,
            r.monsters == monsters,
            r.branching_pct == branching_pct,
    {
        DesirableProperties {
            seed: seed.clone(),
            room_number,
            room_size,
            doors,
            monsters,
            branching_pct,
            occupants: Vec::new(),
            rooms: Vec::new(),
            mazes: Vec::new(),
            connectors: Vec::new(),
            entrance: None,
            exit: None,
        }
    }

    /// Roll a fully formed individual: place non-overlapping rooms,
    /// carve mazes through every free odd-lattice cell, find and merge
    /// the connectors, prune dead ends, keep the connectors that still
    /// open onto two carved sides, and choose an entrance and an exit
    /// inside rooms.
    pub fn initialize(&self, rng: &mut rand::rngs::StdRng) -> (r: DesirableProperties)
        requires
            self.wf(),
        ensures
            r.wf(),
            r.seed.width == self.seed.width,
            r.seed.height == self.seed.height,
            r.doors == self.doors,
            1 <= r.rooms@.len() <= self.room_number,
            r.occupants@.len() <= self.monsters,
            forall|i: int| 0 <= i < r.rooms@.len() ==> (#[trigger] r.rooms@[i]).region == i,
            forall|j: int|
                0 <= j < r.mazes@.len() ==> (#[trigger] r.mazes@[j]).region == r.rooms@.len() + j,
            forall|j1: int, j2: int|
                0 <= j1 < j2 < r.mazes@.len() ==> (#[trigger] r.mazes@[j1]).path@.disjoint(
                    (#[trigger] r.mazes@[j2]).path@,
                ),
            forall|j: int, i: int, p: (int, int)|
                0 <= j < r.mazes@.len() && 0 <= i < r.rooms@.len()
                    && #[trigger] r.mazes@[j].path@.contains(p) ==> !(
                #[trigger] r.rooms@[i]).contains_spec(p.0, p.1),
            locations_distinct(r.connectors@),
            r.entrance is Some && exists|i: int|
                0 <= i < r.rooms@.len() && (#[trigger] r.rooms@[i]).contains_spec(
                    (r.entrance->0).0 as int,
                    (r.entrance->0).1 as int,
                ),
            r.exit is Some && exists|i: int|
                0 <= i < r.rooms@.len() && (#[trigger] r.rooms@[i]).contains_spec(
                    (r.exit->0).0 as int,
                    (r.exit->0).1 as int,
                ),
    {
        let w = self.seed.width;
        let h = self.seed.height;
        let all_occupants = self.seed.random_occupants(rng);
        let mut occupants: Vec<(Occupant, (u32, u32))> = Vec::new();
        let mut oc: usize = 0;
        while oc < all_occupants.len() && oc < self.monsters as usize
            invariant
                oc <= all_occupants@.len(),
                oc <= self.monsters,
                occupants@.len() == oc,
                self.wf(),
                w == self.seed.width,
                h == self.seed.height,
                forall|k: int|
                    0 <= k < all_occupants@.len() ==> 1 <= (#[trigger] all_occupants@[k]).1.0 < w
                        && 1 <= all_occupants@[k].1.1 < h && self.seed.occupants.contains_tag(
                        all_occupants@[k].0,
                    ),
                forall|k: int|
                    0 <= k < oc ==> (#[trigger] occupants@[k]) == all_occupants@[k],
            decreases all_occupants@.len() - oc,
        {
            let o = all_occupants[oc].0.clone();
            let p = all_occupants[oc].1;
            proof {
                assert((o, p) == all_occupants@[oc as int]);
            }
            occupants.push((o, p));
            oc = oc + 1;
        }
        // place rooms, retrying a bounded number of times each; the
        // region counter hands each room its index as its id
        let mut rooms: Vec<Room> = Vec::new();
        let mut region: u32 = 0;
        let mut rn: u32 = 0;
        while rn < self.room_number
            invariant
                rn <= self.room_number,
                self.wf(),
                w == self.seed.width,
                h == self.seed.height,
                region == rooms@.len(),
                rooms@.len() <= rn,
                rn >= 1 ==> rooms@.len() >= 1,
                forall|i: int|
                    0 <= i < rooms@.len() ==> (#[trigger] rooms@[i]).wf(w as int, h as int),
                forall|i: int, j: int|
                    0 <= i < j < rooms@.len() ==> !(#[trigger] rooms@[i]).overlaps(
                        #[trigger] rooms@[j],
                    ),
                forall|i: int| 0 <= i < rooms@.len() ==> (#[trigger] rooms@[i]).region == i,
            decreases self.room_number - rn,
        {
            let mut attempt: u32 = 0;
            let mut placed = false;
            let ghost len0 = rooms@.len() as int;
            while attempt < 10 && !placed
                invariant
                    attempt <= 10,
                    self.wf(),
                    w == self.seed.width,
                    h == self.seed.height,
                    len0 <= rn < self.room_number,
                    region == rooms@.len(),
                    rooms@.len() == len0 + (if placed {
                        1int
                    } else {
                        0int
                    }),
                    len0 == 0 && attempt > 0 ==> placed,
                    forall|i: int|
                        0 <= i < rooms@.len() ==> (#[trigger] rooms@[i]).wf(w as int, h as int),
                    forall|i: int, j: int|
                        0 <= i < j < rooms@.len() ==> !(#[trigger] rooms@[i]).overlaps(
                            #[trigger] rooms@[j],
                        ),
                    forall|i: int|
                        0 <= i < rooms@.len() ==> (#[trigger] rooms@[i]).region == i,
                decreases 10 - attempt + (if placed {
                    0int
                } else {
                    1int
                }),
            {
                let room = Room::random(rng, w, h, self.room_size, region);
                if !room.intersects(&rooms) {
                    let ghost pre = rooms@;
                    rooms.push(room);
                    proof {
                        assert forall|i: int, j: int|
                            0 <= i < j < rooms@.len() implies !(#[trigger] rooms@[i]).overlaps(
                            #[trigger] rooms@[j],
                        ) by {
                            if j == rooms@.len() - 1 {
                                assert(!room.overlaps(pre[i]));
                                assert(!pre[i].overlaps(room));
                            }
                        }
                    }
                    region = region + 1;
                    placed = true;
                } else {
                    proof {
                        assert(rooms@.len() > 0);
                    }
                    attempt = attempt + 1;
                }
            }
            rn = rn + 1;
        }
        let ghost room_count = rooms@.len() as int;
        // carve mazes through every free odd-lattice cell; each maze's
        // cells avoid the rooms and every earlier maze
        let mut mazes: Vec<Maze> = Vec::new();
        let mut positions = CoordSet::new();
        let mut mx: u32 = 1;
        while mx < w
            invariant
                self.wf(),
                w == self.seed.width,
                h == self.seed.height,
                mx % 2 == 1,
                1 <= mx,
                positions.wf(),
                room_count == rooms@.len(),
                region == room_count + mazes@.len(),
                region <= 0xFFFF_FFFF,
                forall|p: (int, int)| positions@.contains(p) ==> 0 <= p.0 < w && 0 <= p.1 < h,
                forall|i: int|
                    0 <= i < mazes@.len() ==> (#[trigger] mazes@[i]).path.wf() && (forall|
                        p: (int, int),
                    |
                        #[trigger] mazes@[i].path@.contains(p) ==> 0 <= p.0 < w && 0 <= p.1 < h),
                forall|i: int|
                    0 <= i < mazes@.len() ==> carved_shape((#[trigger] mazes@[i]).path@),
                forall|i: int|
                    0 <= i < mazes@.len() ==> (#[trigger] mazes@[i]).region == room_count + i,
                forall|i: int, p: (int, int)|
                    0 <= i < mazes@.len() && #[trigger] mazes@[i].path@.contains(p)
                        ==> positions@.contains(p),
                forall|i: int, p: (int, int)|
                    0 <= i < mazes@.len() && #[trigger] mazes@[i].path@.contains(p)
                        ==> !collides_spec(rooms@, w as int, h as int, p.0, p.1),
                forall|j1: int, j2: int|
                    0 <= j1 < j2 < mazes@.len() ==> (#[trigger] mazes@[j1]).path@.disjoint(
                        (#[trigger] mazes@[j2]).path@,
                    ),
                forall|i: int|
                    0 <= i < rooms@.len() ==> (#[trigger] rooms@[i]).region == i,
                forall|i: int|
                    0 <= i < rooms@.len() ==> (#[trigger] rooms@[i]).wf(w as int, h as int),
                forall|i: int, j: int|
                    0 <= i < j < rooms@.len() ==> !(#[trigger] rooms@[i]).overlaps(
                        #[trigger] rooms@[j],
                    ),
                rooms@.len() >= 1,
            decreases w - mx,
        {
            let mut my: u32 = 1;
            while my < h
                invariant
                    self.wf(),
                    w == self.seed.width,
                    h == self.seed.height,
                    mx % 2 == 1,
                    my % 2 == 1,
                    1 <= mx < w,
                    1 <= my,
                    positions.wf(),
                    room_count == rooms@.len(),
                    region == room_count + mazes@.len(),
                    region <= 0xFFFF_FFFF,
                    forall|p: (int, int)| positions@.contains(p) ==> 0 <= p.0 < w && 0 <= p.1 < h,
                    forall|i: int|
                        0 <= i < mazes@.len() ==> (#[trigger] mazes@[i]).path.wf() && (forall|
                            p: (int, int),
                        |
                            #[trigger] mazes@[i].path@.contains(p) ==> 0 <= p.0 < w && 0 <= p.1
                                < h),
                    forall|i: int|
                        0 <= i < mazes@.len() ==> carved_shape((#[trigger] mazes@[i]).path@),
                    forall|i: int|
                        0 <= i < mazes@.len() ==> (#[trigger] mazes@[i]).region == room_count + i,
                    forall|i: int, p: (int, int)|
                        0 <= i < mazes@.len() && #[trigger] mazes@[i].path@.contains(p)
                            ==> positions@.contains(p),
                    forall|i: int, p: (int, int)|
                        0 <= i < mazes@.len() && #[trigger] mazes@[i].path@.contains(p)
                            ==> !collides_spec(rooms@, w as int, h as int, p.0, p.1),
                    forall|j1: int, j2: int|
                        0 <= j1 < j2 < mazes@.len() ==> (#[trigger] mazes@[j1]).path@.disjoint(
                            (#[trigger] mazes@[j2]).path@,
                        ),
                    forall|i: int|
                        0 <= i < rooms@.len() ==> (#[trigger] rooms@[i]).region == i,
                    forall|i: int|
                        0 <= i < rooms@.len() ==> (#[trigger] rooms@[i]).wf(w as int, h as int),
                    forall|i: int, j: int|
                        0 <= i < j < rooms@.len() ==> !(#[trigger] rooms@[i]).overlaps(
                            #[trigger] rooms@[j],
                        ),
                    rooms@.len() >= 1,
                decreases h - my,
            {
                if !collides(&rooms, w, h, mx as i64, my as i64) && !positions.contains(mx, my) {
                    if region < 0xFFFF_FFFF {
                        let ghost positions0 = positions@;
                        let maze = Maze::new(
                            rng,
                            &positions,
                            &rooms,
                            w,
                            h,
                            self.branching_pct as u64,
                            region,
                            mx,
                            my,
                        );
                        let mut pe: usize = 0;
                        while pe < maze.path.elems.len()
                            invariant
                                pe <= maze.path.elems@.len(),
                                positions.wf(),
                                maze.path.wf(),
                                positions0.subset_of(positions@),
                                forall|p: (int, int)|
                                    #[trigger] maze.path@.contains(p) ==> 0 <= p.0 < w && 0 <= p.1
                                        < h,
                                forall|p: (int, int)|
                                    positions@.contains(p) ==> 0 <= p.0 < w && 0 <= p.1 < h,
                                forall|t: int|
                                    0 <= t < pe ==> positions@.contains(
                                        ((#[trigger] maze.path.elems@[t]).0 as int,
                                        maze.path.elems@[t].1 as int),
                                    ),
                            decreases maze.path.elems@.len() - pe,
                        {
                            let (qx, qy) = maze.path.get(pe);
                            positions.insert(qx, qy);
                            pe = pe + 1;
                        }
                        proof {
                            assert forall|p: (int, int)| #[trigger] maze.path@.contains(p) implies
                                positions@.contains(p) by {
                                let t = choose|t: int|
                                    0 <= t < maze.path.elems@.len() && (
                                    #[trigger] maze.path.elems@[t]).0 as int == p.0
                                        && maze.path.elems@[t].1 as int == p.1;
                                assert(positions@.contains(
                                    (maze.path.elems@[t].0 as int, maze.path.elems@[t].1 as int),
                                ));
                            }
                        }
                        let ghost pre_mazes = mazes@;
                        mazes.push(maze);
                        proof {
                            assert forall|j1: int, j2: int|
                                0 <= j1 < j2 < mazes@.len() implies (
                            #[trigger] mazes@[j1]).path@.disjoint(
                                (#[trigger] mazes@[j2]).path@,
                            ) by {
                                if j2 == mazes@.len() - 1 {
                                    assert(mazes@[j1] == pre_mazes[j1]);
                                    assert forall|p: (int, int)|
                                        mazes@[j1].path@.contains(p) implies !mazes@[j2].path@.contains(
                                        p,
                                    ) by {
                                        assert(positions0.contains(p));
                                    }
                                    assert(mazes@[j1].path@.disjoint(mazes@[j2].path@));
                                } else {
                                    assert(mazes@[j1] == pre_mazes[j1] && mazes@[j2]
                                        == pre_mazes[j2]);
                                }
                            }
                        }
                        region = region + 1;
                    }
                }
                if my + 2 >= h {
                    break ;
                }
                my = my + 2;
            }
            if mx + 2 >= w {
                break ;
            }
            mx = mx + 2;
        }
        // join the regions through connectors
        let all_connectors = Connector::find_all(&mazes, &rooms, w, h);
        proof {
            assert forall|k: int, r: int|
                0 <= k < all_connectors@.len() && #[trigger] all_connectors@[k].regions@.contains(
                    r,
                ) implies 0 <= r < region by {
                assert(region_id_of_some(mazes@, rooms@, r));
            }
        }
        let (filtered, _complete) = Connector::merge(rng, &all_connectors, region);
        proof {
            assert(locations_distinct(filtered@));
        }
        // prune the dead ends of every maze
        let mut pruned: Vec<Maze> = Vec::new();
        let mut pm: usize = 0;
        while pm < mazes.len()
            invariant
                pm <= mazes@.len(),
                room_count == rooms@.len(),
                forall|i: int|
                    0 <= i < mazes@.len() ==> (#[trigger] mazes@[i]).path.wf() && (forall|
                        p: (int, int),
                    |
                        #[trigger] mazes@[i].path@.contains(p) ==> 0 <= p.0 < w && 0 <= p.1 < h),
                forall|i: int|
                    0 <= i < mazes@.len() ==> (#[trigger] mazes@[i]).region == room_count + i,
                forall|i: int, p: (int, int)|
                    0 <= i < mazes@.len() && #[trigger] mazes@[i].path@.contains(p)
                        ==> !collides_spec(rooms@, w as int, h as int, p.0, p.1),
                forall|j1: int, j2: int|
                    0 <= j1 < j2 < mazes@.len() ==> (#[trigger] mazes@[j1]).path@.disjoint(
                        (#[trigger] mazes@[j2]).path@,
                    ),
                pruned@.len() == pm,
                forall|i: int|
                    0 <= i < pruned@.len() ==> (#[trigger] pruned@[i]).path.wf() && (forall|
                        p: (int, int),
                    |
                        #[trigger] pruned@[i].path@.contains(p) ==> 0 <= p.0 < w && 0 <= p.1 < h),
                forall|i: int|
                    0 <= i < pruned@.len() ==> (#[trigger] pruned@[i]).region == room_count + i,
                forall|i: int|
                    0 <= i < pruned@.len() ==> (#[trigger] pruned@[i]).path@.subset_of(
                        mazes@[i].path@,
                    ),
            decreases mazes@.len() - pm,
        {
            let mut m = mazes[pm].clone();
            m.prune(&filtered);
            proof {
                assert(forall|p: (int, int)|
                    #[trigger] m.path@.contains(p) ==> mazes@[pm as int].path@.contains(p));
            }
            pruned.push(m);
            pm = pm + 1;
        }
        proof {
            assert forall|j1: int, j2: int|
                0 <= j1 < j2 < pruned@.len() implies (#[trigger] pruned@[j1]).path@.disjoint(
                (#[trigger] pruned@[j2]).path@,
            ) by {
                assert(mazes@[j1].path@.disjoint(mazes@[j2].path@));
                assert forall|p: (int, int)| pruned@[j1].path@.contains(p) implies
                    !pruned@[j2].path@.contains(p) by {
                    assert(mazes@[j1].path@.contains(p));
                    if pruned@[j2].path@.contains(p) {
                        assert(mazes@[j2].path@.contains(p));
                    }
                }
            }
            assert forall|j: int, i: int, p: (int, int)|
                0 <= j < pruned@.len() && 0 <= i < rooms@.len()
                    && #[trigger] pruned@[j].path@.contains(p) implies !(
            #[trigger] rooms@[i]).contains_spec(p.0, p.1) by {
                assert(mazes@[j].path@.contains(p));
                assert(!collides_spec(rooms@, w as int, h as int, p.0, p.1));
            }
        }
        // keep the connectors that still open onto two carved sides
        let mut positions2 = CoordSet::new();
        let mut pp: usize = 0;
        while pp < pruned.len()
            invariant
                pp <= pruned@.len(),
                positions2.wf(),
                forall|i: int|
                    0 <= i < pruned@.len() ==> (#[trigger] pruned@[i]).path.wf() && (forall|
                        p: (int, int),
                    |
                        #[trigger] pruned@[i].path@.contains(p) ==> 0 <= p.0 < w && 0 <= p.1 < h),
            decreases pruned@.len() - pp,
        {
            let mut pe: usize = 0;
            while pe < pruned[pp].path.elems.len()
                invariant
                    pp < pruned@.len(),
                    pe <= pruned@[pp as int].path.elems@.len(),
                    positions2.wf(),
                    forall|i: int|
                        0 <= i < pruned@.len() ==> (#[trigger] pruned@[i]).path.wf() && (forall|
                            p: (int, int),
                        |
                            #[trigger] pruned@[i].path@.contains(p) ==> 0 <= p.0 < w && 0 <= p.1
                                < h),
                decreases pruned@[pp as int].path.elems@.len() - pe,
            {
                let (qx, qy) = pruned[pp].path.get(pe);
                proof {
                    assert(pruned@[pp as int].path@.contains((qx as int, qy as int)));
                }
                positions2.insert(qx, qy);
                pe = pe + 1;
            }
            pp = pp + 1;
        }
        let mut connectors: Vec<Connector> = Vec::new();
        let mut fc: usize = 0;
        while fc < filtered.len()
            invariant
                fc <= filtered@.len(),
                self.wf(),
                w == self.seed.width,
                h == self.seed.height,
                locations_distinct(filtered@),
                locations_distinct(connectors@),
                forall|k: int|
                    0 <= k < connectors@.len() ==> (#[trigger] connectors@[k]).location.0 < w
                        && connectors@[k].location.1 < h,
                forall|k: int|
                    0 <= k < connectors@.len() ==> loc_among(
                        filtered@,
                        fc as int,
                        #[trigger] connectors@[k],
                    ),
            decreases filtered@.len() - fc,
        {
            let c = &filtered[fc];
            let (lx, ly) = c.location;
            let mut keep_it = false;
            if lx < w && ly < h {
                let dirs: Vec<(i32, i32)> = vec![(0, 1), (1, 0), (0, -1), (-1, 0)];
                let mut count: u32 = 0;
                proof {
                    assert(lx <= 0x1_0000 && ly <= 0x1_0000);
                }
                let mut dk: usize = 0;
                while dk < 4
                    invariant
                        dk <= 4,
                        count <= dk,
                        lx < w <= 0xFFFF,
                        ly < h <= 0xFFFF,
                        dirs@.len() == 4,
                        forall|m: int|
                            0 <= m < 4 ==> -1 <= (#[trigger] dirs@[m]).0 <= 1 && -1 <= dirs@[m].1
                                <= 1,
                    decreases 4 - dk,
                {
                    let d = dirs[dk];
                    let (qx, qy) = scale((lx, ly), d, 1);
                    let mut occ = contains_i64(&positions2, qx, qy);
                    if !occ {
                        let mut rr: usize = 0;
                        while rr < rooms.len()
                            invariant
                                rr <= rooms@.len(),
                            decreases rooms@.len() - rr,
                        {
                            if qx >= 0 && qy >= 0 && qx <= 0xFFFF_FFFF && qy <= 0xFFFF_FFFF {
                                if rooms[rr].contains(qx as u32, qy as u32) {
                                    occ = true;
                                }
                            }
                            rr = rr + 1;
                        }
                    }
                    if occ {
                        count = count + 1;
                    }
                    dk = dk + 1;
                }
                if count > 1 {
                    keep_it = true;
                }
            }
            if keep_it {
                let ghost pre_conns = connectors@;
                connectors.push(c.clone());
                proof {
                    assert(connectors@[connectors@.len() - 1].location
                        == filtered@[fc as int].location);
                    assert forall|i2: int, j2: int|
                        0 <= i2 < j2 < connectors@.len() implies (
                    #[trigger] connectors@[i2]).location != (
                    #[trigger] connectors@[j2]).location by {
                        if j2 == connectors@.len() - 1 {
                            assert(connectors@[i2] == pre_conns[i2]);
                            assert(loc_among(filtered@, fc as int, pre_conns[i2]));
                            let jj = choose|jj: int|
                                0 <= jj < fc && (#[trigger] filtered@[jj]).location
                                    == pre_conns[i2].location;
                            assert(filtered@[jj].location != filtered@[fc as int].location);
                        }
                    }
                    assert forall|k: int|
                        0 <= k < connectors@.len() implies loc_among(
                        filtered@,
                        fc as int + 1,
                        #[trigger] connectors@[k],
                    ) by {
                        if k < connectors@.len() - 1 {
                            assert(connectors@[k] == pre_conns[k]);
                            assert(loc_among(filtered@, fc as int, pre_conns[k]));
                            let jj = choose|jj: int|
                                0 <= jj < fc && (#[trigger] filtered@[jj]).location
                                    == pre_conns[k].location;
                        } else {
                            assert((#[trigger] filtered@[fc as int]).location
                                == connectors@[k].location);
                        }
                    }
                }
            } else {
                proof {
                    assert forall|k: int|
                        0 <= k < connectors@.len() implies loc_among(
                        filtered@,
                        fc as int + 1,
                        #[trigger] connectors@[k],
                    ) by {
                        assert(loc_among(filtered@, fc as int, connectors@[k]));
                        let jj = choose|jj: int|
                            0 <= jj < fc && (#[trigger] filtered@[jj]).location
                                == connectors@[k].location;
                    }
                }
            }
            fc = fc + 1;
        }
        // entrance and exit inside rooms
        let i1 = index_below(rng, rooms.len());
        let r1 = &rooms[i1];
        let ex = range_u32(rng, r1.x, r1.x + r1.w - 1);
        let ey = range_u32(rng, r1.y, r1.y + r1.h - 1);
        let i2 = index_below(rng, rooms.len());
        let r2 = &rooms[i2];
        let xx = range_u32(rng, r2.x, r2.x + r2.w - 1);
        let xy = range_u32(rng, r2.y, r2.y + r2.h - 1);
        proof {
            assert((#[trigger] rooms@[i1 as int]).contains_spec(ex as int, ey as int));
            assert((#[trigger] rooms@[i2 as int]).contains_spec(xx as int, xy as int));
        }
        DesirableProperties {
            seed: self.seed.clone(),
            room_number: self.room_number,
            room_size: self.room_size,
            doors: self.doors,
            monsters: self.monsters,
            branching_pct: self.branching_pct,
            occupants,
            rooms,
            mazes: pruned,
            connectors,
            entrance: Some((ex, ey)),
            exit: Some((xx, xy)),
        }
    }

    /// The reference behavior keeps mutation a no-op for this strategy:
    /// fresh individuals come from a full re-roll instead.
    pub fn mutate(&mut self, rng: &mut rand::rngs::StdRng, percentage: u32)
        ensures
            *final(self) == *old(self),
    {
        let _ = rng;
        let _ = percentage;
    }
}

/// The tile an optional map shows at a cell.
pub open spec fn tile_of(m: Map<(int, int), Seq<char>>, p: (int, int)) -> Option<Seq<char>> {
    if m.contains_key(p) {
        Some(m[p])
    } else {
        None
    }
}

/// Whether a dungeon's tiles agree with a tile map, with no occupants
/// or items anywhere yet.
pub open spec fn tiles_match(d: Dungeon, m: Map<(int, int), Seq<char>>) -> bool {
    forall|x: int, y: int|
        0 <= x < d.width && 0 <= y < d.height ==> #[trigger] d.cell_at(x, y).tile == tile_of(
            m,
            (x, y),
        ) && d.cell_at(x, y).occupant is None && d.cell_at(x, y).items == Seq::<Seq<char>>::empty()
}

/// The tile a room stamps at a cell: wall on its border ring, floor in
/// its interior.
pub open spec fn room_tile(room: Room, px: int, py: int) -> Seq<char> {
    if room.on_border(px, py) {
        "wall"@
    } else {
        "floor"@
    }
}

/// The tile grid after one room is drawn.
pub open spec fn stamp_room(g: Map<(int, int), Seq<char>>, room: Room) -> Map<
    (int, int),
    Seq<char>,
> {
    Map::new(
        |p: (int, int)| g.contains_key(p) || room.contains_spec(p.0, p.1),
        |p: (int, int)|
            if room.contains_spec(p.0, p.1) {
                room_tile(room, p.0, p.1)
            } else {
                g[p]
            },
    )
}

/// The tile grid after the first `n` rooms are drawn.
pub open spec fn stamp_rooms(g: Map<(int, int), Seq<char>>, rooms: Seq<Room>, n: int) -> Map<
    (int, int),
    Seq<char>,
>
    decreases n,
{
    if n <= 0 {
        g
    } else {
        stamp_room(stamp_rooms(g, rooms, n - 1), rooms[n - 1])
    }
}

/// The tile grid after the first `k` cells of one maze path get floor.
pub open spec fn stamp_path(g: Map<(int, int), Seq<char>>, elems: Seq<(u32, u32)>, k: int) -> Map<
    (int, int),
    Seq<char>,
>
    decreases k,
{
    if k <= 0 {
        g
    } else {
        stamp_path(g, elems, k - 1).insert((elems[k - 1].0 as int, elems[k - 1].1 as int), "floor"@)
    }
}

/// The tile grid after the first `n` mazes get their floor.
pub open spec fn stamp_mazes(g: Map<(int, int), Seq<char>>, mazes: Seq<Maze>, n: int) -> Map<
    (int, int),
    Seq<char>,
>
    decreases n,
{
    if n <= 0 {
        g
    } else {
        stamp_path(
            stamp_mazes(g, mazes, n - 1),
            mazes[n - 1].path.elems@,
            mazes[n - 1].path.elems@.len() as int,
        )
    }
}

/// The tile grid after walls around a connector are cleared, one
/// direction at a time: a wall tile next to a passage becomes floor so
/// the passage is never sealed.
pub open spec fn clear_walls(
    g: Map<(int, int), Seq<char>>,
    w: int,
    h: int,
    offs: Seq<(int, int)>,
    loc: (int, int),
    k: int,
) -> Map<(int, int), Seq<char>>
    decreases k,
{
    if k <= 0 {
        g
    } else {
        let g2 = clear_walls(g, w, h, offs, loc, k - 1);
        let p = (loc.0 + offs[k - 1].0, loc.1 + offs[k - 1].1);
        if 0 <= p.0 < w && 0 <= p.1 < h && g2.contains_key(p) && g2[p] == "wall"@ {
            g2.insert(p, "floor"@)
        } else {
            g2
        }
    }
}

/// The tile grid after one connector is stamped: its door — or plain
/// floor once the door quota is spent — and the walls around it
/// cleared.
pub open spec fn stamp_connector(
    g: Map<(int, int), Seq<char>>,
    w: int,
    h: int,
    loc: (int, int),
    door: bool,
) -> Map<(int, int), Seq<char>> {
    clear_walls(
        g.insert(
            loc,
            if door {
                "door"@
            } else {
                "floor"@
            },
        ),
        w,
        h,
        crate::dungeon::all_offsets(),
        loc,
        8,
    )
}

/// The tile grid after the first `n` connectors are stamped, doors
/// first up to the quota.
pub open spec fn stamp_connectors(
    g: Map<(int, int), Seq<char>>,
    w: int,
    h: int,
    conns: Seq<Connector>,
    quota: int,
    n: int,
) -> Map<(int, int), Seq<char>>
    decreases n,
{
    if n <= 0 {
        g
    } else {
        stamp_connector(
            stamp_connectors(g, w, h, conns, quota, n - 1),
            w,
            h,
            (conns[n - 1].location.0 as int, conns[n - 1].location.1 as int),
            n - 1 < quota,
        )
    }
}

impl DesirableProperties {
    /// The tile grid of this genotype's phenotype: rooms, then maze
    /// floors, then connectors with their door quota, then the entrance
    /// and exit.
    pub open spec fn tile_grid(self) -> Map<(int, int), Seq<char>> {
        crate::list_of_walls::stamp_point(
            crate::list_of_walls::stamp_point(
                stamp_connectors(
                    stamp_mazes(
                        stamp_rooms(
                            Map::<(int, int), Seq<char>>::empty(),
                            self.rooms@,
                            self.rooms@.len() as int,
                        ),
                        self.mazes@,
                        self.mazes@.len() as int,
                    ),
                    self.seed.width as int,
                    self.seed.height as int,
                    self.connectors@,
                    self.doors as int,
                    self.connectors@.len() as int,
                ),
                self.entrance,
                "entrance"@,
            ),
            self.exit,
            "exit"@,
        )
    }

    /// The occupant grid of this genotype's phenotype.
    pub open spec fn occupant_grid(self) -> Map<(int, int), Seq<char>> {
        crate::list_of_walls::stand_occupants(
            self.tile_grid(),
            self.occupants@,
            self.occupants@.len() as int,
        )
    }

    /// What the phenotype of this genotype looks like, cell for cell.
    pub open spec fn phenotype_matches(self, d: Dungeon) -> bool {
        &&& d.wf()
        &&& d.width == self.seed.width
        &&& d.height == self.seed.height
        &&& (forall|x: int, y: int|
            0 <= x < d.width && 0 <= y < d.height ==> #[trigger] d.cell_at(x, y) == (CellView {
                x,
                y,
                tile: tile_of(self.tile_grid(), (x, y)),
                occupant: (if self.occupant_grid().contains_key((x, y)) {
                    Some(self.occupant_grid()[(x, y)])
                } else {
                    None
                }),
                items: Seq::<Seq<char>>::empty(),
            }))
    }

    /// Map the genotype to its grid: floor inside rooms with wall on
    /// their borders, floor along every surviving maze path, doors at
    /// kept connectors up to the quota — excess ones degrade to plain
    /// floor, and walls around any connector are cleared — then the
    /// entrance and exit, then the pre-rolled occupants on what is
    /// still plain floor.
    #[verifier::rlimit(100)]
    #[verifier::spinoff_prover]
    pub fn generate(&self) -> (d: Dungeon)
        requires
            self.wf(),
        ensures
            self.phenotype_matches(d),
    {
        let w = self.seed.width;
        let h = self.seed.height;
        let ghost wi = w as int;
        let ghost hi = h as int;
        let floor_tile = self.seed.tiles.get("floor").unwrap();
        let wall_tile = self.seed.tiles.get("wall").unwrap();
        let door_tile = self.seed.tiles.get("door").unwrap();
        let mut d = Dungeon::new(w, h, None);
        proof {
            assert(tiles_match(d, Map::<(int, int), Seq<char>>::empty()));
        }
        // rooms: floor inside, wall on the border ring
        let ghost base0 = Map::<(int, int), Seq<char>>::empty();
        let mut rn: usize = 0;
        while rn < self.rooms.len()
            invariant
                self.wf(),
                w == self.seed.width,
                h == self.seed.height,
                wi == w as int,
                hi == h as int,
                rn <= self.rooms@.len(),
                floor_tile.name_spec() == "floor"@,
                wall_tile.name_spec() == "wall"@,
                d.wf(),
                d.width == w,
                d.height == h,
                tiles_match(d, stamp_rooms(base0, self.rooms@, rn as int)),
            decreases self.rooms@.len() - rn,
        {
            let room = rooms_index(&self.rooms, rn);
            let ghost g_pre = stamp_rooms(base0, self.rooms@, rn as int);
            let mut i = room.x;
            while i < room.x + room.w
                invariant
                    self.wf(),
                    w == self.seed.width,
                    h == self.seed.height,
                    wi == w as int,
                    hi == h as int,
                    rn < self.rooms@.len(),
                    room == self.rooms@[rn as int],
                    room.wf(wi, hi),
                    room.x <= i <= room.x + room.w,
                    floor_tile.name_spec() == "floor"@,
                    wall_tile.name_spec() == "wall"@,
                    d.wf(),
                    d.width == w,
                    d.height == h,
                    forall|x: int, y: int|
                        0 <= x < wi && 0 <= y < hi ==> #[trigger] d.cell_at(x, y).tile == (if (
                        room.contains_spec(x, y) && x < i) {
                            Some(room_tile(room, x, y))
                        } else {
                            tile_of(g_pre, (x, y))
                        }) && d.cell_at(x, y).occupant is None && d.cell_at(x, y).items == Seq::<
                            Seq<char>,
                        >::empty(),
                decreases room.x + room.w - i,
            {
                let mut j = room.y;
                while j < room.y + room.h
                    invariant
                        self.wf(),
                        w == self.seed.width,
                        h == self.seed.height,
                        wi == w as int,
                        hi == h as int,
                        rn < self.rooms@.len(),
                        room == self.rooms@[rn as int],
                        room.wf(wi, hi),
                        room.x <= i < room.x + room.w,
                        room.y <= j <= room.y + room.h,
                        floor_tile.name_spec() == "floor"@,
                        wall_tile.name_spec() == "wall"@,
                        d.wf(),
                        d.width == w,
                        d.height == h,
                        forall|x: int, y: int|
                            0 <= x < wi && 0 <= y < hi ==> #[trigger] d.cell_at(x, y).tile == (if (
                            room.contains_spec(x, y) && (x < i || (x == i && y < j))) {
                                Some(room_tile(room, x, y))
                            } else {
                                tile_of(g_pre, (x, y))
                            }) && d.cell_at(x, y).occupant is None && d.cell_at(x, y).items
                            == Seq::<Seq<char>>::empty(),
                    decreases room.y + room.h - j,
                {
                    let border = i == room.x || i == room.x + room.w - 1 || j == room.y || j
                        == room.y + room.h - 1;
                    let ghost d_pre = d;
                    if border {
                        d.set_tile(i, j, wall_tile);
                    } else {
                        d.set_tile(i, j, floor_tile);
                    }
                    proof {
                        assert(room.contains_spec(i as int, j as int));
                        assert(border == room.on_border(i as int, j as int));
                        assert(d.cell_at(i as int, j as int).tile == Some(
                            room_tile(room, i as int, j as int),
                        ));
                        assert forall|x: int, y: int| 0 <= x < wi && 0 <= y < hi implies
                            #[trigger] d.cell_at(x, y).tile == (if (room.contains_spec(x, y) && (x
                                < i || (x == i && y < j + 1))) {
                            Some(room_tile(room, x, y))
                        } else {
                            tile_of(g_pre, (x, y))
                        }) && d.cell_at(x, y).occupant is None && d.cell_at(x, y).items == Seq::<
                            Seq<char>,
                        >::empty() by {
                            if x == i as int && y == j as int {
                                assert(d.cell_at(x, y).tile == Some(room_tile(room, x, y)));
                            } else {
                                assert(d.cell_at(x, y) == d_pre.cell_at(x, y));
                                assert(d_pre.cell_at(x, y).tile == (if (room.contains_spec(x, y)
                                    && (x < i || (x == i && y < j))) {
                                    Some(room_tile(room, x, y))
                                } else {
                                    tile_of(g_pre, (x, y))
                                }));
                            }
                        }
                    }
                    j = j + 1;
                }
                i = i + 1;
            }
            proof {
                assert(tiles_match(d, stamp_rooms(base0, self.rooms@, rn as int + 1))) by {
                    assert(stamp_rooms(base0, self.rooms@, rn as int + 1) == stamp_room(
                        g_pre,
                        self.rooms@[rn as int],
                    ));
                    assert forall|x: int, y: int| 0 <= x < wi && 0 <= y < hi implies
                        #[trigger] d.cell_at(x, y).tile == tile_of(
                        stamp_room(g_pre, room),
                        (x, y),
                    ) by {}
                }
            }
            rn = rn + 1;
        }
        // mazes: floor along every surviving path
        let ghost after_rooms = stamp_rooms(base0, self.rooms@, self.rooms@.len() as int);
        let mut mn: usize = 0;
        while mn < self.mazes.len()
            invariant
                self.wf(),
                w == self.seed.width,
                h == self.seed.height,
                wi == w as int,
                hi == h as int,
                mn <= self.mazes@.len(),
                floor_tile.name_spec() == "floor"@,
                d.wf(),
                d.width == w,
                d.height == h,
                tiles_match(d, stamp_mazes(after_rooms, self.mazes@, mn as int)),
            decreases self.mazes@.len() - mn,
        {
            let ghost g_pre = stamp_mazes(after_rooms, self.mazes@, mn as int);
            let mut pk: usize = 0;
            while pk < self.mazes[mn].path.elems.len()
                invariant
                    self.wf(),
                    w == self.seed.width,
                    h == self.seed.height,
                    wi == w as int,
                    hi == h as int,
                    mn < self.mazes@.len(),
                    pk <= self.mazes@[mn as int].path.elems@.len(),
                    floor_tile.name_spec() == "floor"@,
                    d.wf(),
                    d.width == w,
                    d.height == h,
                    tiles_match(d, stamp_path(g_pre, self.mazes@[mn as int].path.elems@, pk as int)),
                decreases self.mazes@[mn as int].path.elems@.len() - pk,
            {
                let (px, py) = self.mazes[mn].path.get(pk);
                proof {
                    assert(self.mazes@[mn as int].path@.contains((px as int, py as int)));
                }
                d.set_tile(px, py, floor_tile);
                proof {
                    assert(tiles_match(
                        d,
                        stamp_path(g_pre, self.mazes@[mn as int].path.elems@, pk as int + 1),
                    ));
                }
                pk = pk + 1;
            }
            mn = mn + 1;
        }
        // connectors: doors up to the quota, floor beyond it, and the
        // walls around each connector cleared
        let ghost after_mazes = stamp_mazes(after_rooms, self.mazes@, self.mazes@.len() as int);
        let offs: Vec<(i32, i32)> = vec![
            (0, -1),
            (1, -1),
            (1, 0),
            (1, 1),
            (0, 1),
            (-1, 1),
            (-1, 0),
            (-1, -1),
        ];
        proof {
            assert(offs@.len() == 8);
            assert(forall|m: int|
                0 <= m < 8 ==> (#[trigger] offs@[m]).0 as int == crate::dungeon::all_offsets()[m].0
                    && offs@[m].1 as int == crate::dungeon::all_offsets()[m].1);
        }
        let mut door_number: u32 = 0;
        let mut cn: usize = 0;
        while cn < self.connectors.len()
            invariant
                self.wf(),
                w == self.seed.width,
                h == self.seed.height,
                wi == w as int,
                hi == h as int,
                cn <= self.connectors@.len(),
                floor_tile.name_spec() == "floor"@,
                door_tile.name_spec() == "door"@,
                offs@.len() == 8,
                forall|m: int|
                    0 <= m < 8 ==> (#[trigger] offs@[m]).0 as int
                        == crate::dungeon::all_offsets()[m].0 && offs@[m].1 as int
                        == crate::dungeon::all_offsets()[m].1,
                door_number as int == (if cn as int <= self.doors as int {
                    cn as int
                } else {
                    self.doors as int
                }),
                d.wf(),
                d.width == w,
                d.height == h,
                tiles_match(
                    d,
                    stamp_connectors(
                        after_mazes,
                        wi,
                        hi,
                        self.connectors@,
                        self.doors as int,
                        cn as int,
                    ),
                ),
            decreases self.connectors@.len() - cn,
        {
            let (lx, ly) = self.connectors[cn].location;
            let ghost g_pre = stamp_connectors(
                after_mazes,
                wi,
                hi,
                self.connectors@,
                self.doors as int,
                cn as int,
            );
            let is_door = door_number < self.doors;
            if is_door {
                d.set_tile(lx, ly, door_tile);
                door_number = door_number + 1;
            } else {
                d.set_tile(lx, ly, floor_tile);
            }
            let ghost loc: (int, int) = (lx as int, ly as int);
            let ghost g_ins = g_pre.insert(
                loc,
                if is_door {
                    "door"@
                } else {
                    "floor"@
                },
            );
            proof {
                assert(is_door == (cn < self.doors));
                assert(tiles_match(d, g_ins));
                assert(clear_walls(g_ins, wi, hi, crate::dungeon::all_offsets(), loc, 0) == g_ins);
            }
            let mut ok: usize = 0;
            while ok < 8
                invariant
                    self.wf(),
                    w == self.seed.width,
                    h == self.seed.height,
                    wi == w as int,
                    hi == h as int,
                    cn < self.connectors@.len(),
                    ok <= 8,
                    lx < w,
                    ly < h,
                    loc == (lx as int, ly as int),
                    floor_tile.name_spec() == "floor"@,
                    offs@.len() == 8,
                    forall|m: int|
                        0 <= m < 8 ==> (#[trigger] offs@[m]).0 as int
                            == crate::dungeon::all_offsets()[m].0 && offs@[m].1 as int
                            == crate::dungeon::all_offsets()[m].1,
                    d.wf(),
                    d.width == w,
                    d.height == h,
                    tiles_match(
                        d,
                        clear_walls(g_ins, wi, hi, crate::dungeon::all_offsets(), loc, ok as int),
                    ),
                decreases 8 - ok,
            {
                let (dx, dy) = offs[ok];
                let nx = lx as i64 + dx as i64;
                let ny = ly as i64 + dy as i64;
                let ghost g2 = clear_walls(g_ins, wi, hi, crate::dungeon::all_offsets(), loc, ok as int);
                if nx >= 0 && nx < w as i64 && ny >= 0 && ny < h as i64 {
                    if d.has_attribute(nx as u32, ny as u32, "wall") {
                        d.set_tile(nx as u32, ny as u32, floor_tile);
                    }
                }
                proof {
                    assert(tiles_match(
                        d,
                        clear_walls(g_ins, wi, hi, crate::dungeon::all_offsets(), loc, ok as int + 1),
                    ));
                }
                ok = ok + 1;
            }
            cn = cn + 1;
        }
        // entrance and exit
        let ghost after_conns = stamp_connectors(
            after_mazes,
            wi,
            hi,
            self.connectors@,
            self.doors as int,
            self.connectors@.len() as int,
        );
        let ghost d_pre_e = d;
        match &self.entrance {
            None => {},
            Some(p) => {
                let t = self.seed.tiles.get("entrance").unwrap();
                d.set_tile(p.0, p.1, t);
            },
        }
        proof {
            assert forall|x: int, y: int| 0 <= x < wi && 0 <= y < hi implies #[trigger] d.cell_at(
                x,
                y,
            ).tile == tile_of(
                crate::list_of_walls::stamp_point(after_conns, self.entrance, "entrance"@),
                (x, y),
            ) && d.cell_at(x, y).occupant is None && d.cell_at(x, y).items == Seq::<
                Seq<char>,
            >::empty() by {
                match self.entrance {
                    None => {},
                    Some(pe) => {
                        if x == pe.0 as int && y == pe.1 as int {
                            assert(d.cell_at(x, y).tile == Some("entrance"@));
                        } else {
                            assert(d.cell_at(x, y) == d_pre_e.cell_at(x, y));
                        }
                    },
                }
            }
        }
        let ghost after_entrance = crate::list_of_walls::stamp_point(
            after_conns,
            self.entrance,
            "entrance"@,
        );
        let ghost d_pre_x = d;
        match &self.exit {
            None => {},
            Some(p) => {
                let t = self.seed.tiles.get("exit").unwrap();
                d.set_tile(p.0, p.1, t);
            },
        }
        proof {
            assert forall|x: int, y: int| 0 <= x < wi && 0 <= y < hi implies #[trigger] d.cell_at(
                x,
                y,
            ).tile == tile_of(self.tile_grid(), (x, y)) && d.cell_at(x, y).occupant is None
                && d.cell_at(x, y).items == Seq::<Seq<char>>::empty() by {
                match self.exit {
                    None => {
                        assert(d.cell_at(x, y).tile == tile_of(after_entrance, (x, y)));
                    },
                    Some(pe) => {
                        if x == pe.0 as int && y == pe.1 as int {
                            assert(d.cell_at(x, y).tile == Some("exit"@));
                        } else {
                            assert(d.cell_at(x, y) == d_pre_x.cell_at(x, y));
                            assert(d_pre_x.cell_at(x, y).tile == tile_of(after_entrance, (x, y)));
                        }
                    },
                }
            }
        }
        // occupants on what is still plain floor
        proof {
            assert(crate::list_of_walls::stand_occupants(self.tile_grid(), self.occupants@, 0)
                == Map::<(int, int), Seq<char>>::empty());
            assert forall|x: int, y: int| 0 <= x < wi && 0 <= y < hi implies #[trigger] d.cell_at(
                x,
                y,
            ).occupant == (if crate::list_of_walls::stand_occupants(
                self.tile_grid(),
                self.occupants@,
                0,
            ).contains_key((x, y)) {
                Some(
                    crate::list_of_walls::stand_occupants(self.tile_grid(), self.occupants@, 0)[
                        (x, y)],
                )
            } else {
                None
            }) by {
                assert(d.cell_at(x, y).tile == tile_of(self.tile_grid(), (x, y)));
                assert(!crate::list_of_walls::stand_occupants(
                    self.tile_grid(),
                    self.occupants@,
                    0,
                ).contains_key((x, y)));
            }
        }
        let mut m: usize = 0;
        while m < self.occupants.len()
            invariant
                self.wf(),
                w == self.seed.width,
                h == self.seed.height,
                wi == w as int,
                hi == h as int,
                m <= self.occupants@.len(),
                d.wf(),
                d.width == w,
                d.height == h,
                forall|x: int, y: int|
                    0 <= x < wi && 0 <= y < hi ==> #[trigger] d.cell_at(x, y).tile == tile_of(
                        self.tile_grid(),
                        (x, y),
                    ) && d.cell_at(x, y).items == Seq::<Seq<char>>::empty(),
                forall|x: int, y: int|
                    0 <= x < wi && 0 <= y < hi ==> #[trigger] d.cell_at(x, y).occupant == (if
                    crate::list_of_walls::stand_occupants(
                        self.tile_grid(),
                        self.occupants@,
                        m as int,
                    ).contains_key((x, y)) {
                        Some(
                            crate::list_of_walls::stand_occupants(
                                self.tile_grid(),
                                self.occupants@,
                                m as int,
                            )[(x, y)],
                        )
                    } else {
                        None
                    }),
            decreases self.occupants@.len() - m,
        {
            let o = self.occupants[m].0.clone();
            let (ox, oy) = self.occupants[m].1;
            proof {
                assert((o, (ox, oy)) == self.occupants@[m as int]);
            }
            let on_floor = d.has_attribute(ox, oy, "floor");
            if on_floor {
                d.set_occupant(ox, oy, &o);
            }
            proof {
                let p = (ox as int, oy as int);
                assert(d.cell_at(p.0, p.1).tile == tile_of(self.tile_grid(), p));
                assert(on_floor == (self.tile_grid().contains_key(p) && self.tile_grid()[p]
                    == "floor"@));
                let g2 = crate::list_of_walls::stand_occupants(
                    self.tile_grid(),
                    self.occupants@,
                    m as int,
                );
                let gn = crate::list_of_walls::stand_occupants(
                    self.tile_grid(),
                    self.occupants@,
                    m as int + 1,
                );
                if on_floor {
                    assert(gn == g2.insert(p, o.name_spec()));
                } else {
                    assert(gn == g2);
                }
                assert forall|x: int, y: int| 0 <= x < wi && 0 <= y < hi implies
                    #[trigger] d.cell_at(x, y).occupant == (if gn.contains_key((x, y)) {
                    Some(gn[(x, y)])
                } else {
                    None
                }) by {
                    assert(d.cell_at(x, y).tile == tile_of(self.tile_grid(), (x, y)));
                }
            }
            m = m + 1;
        }
        proof {
            assert forall|x: int, y: int| 0 <= x < wi && 0 <= y < hi implies #[trigger] d.cell_at(
                x,
                y,
            ) == (CellView {
                x,
                y,
                tile: tile_of(self.tile_grid(), (x, y)),
                occupant: (if self.occupant_grid().contains_key((x, y)) {
                    Some(self.occupant_grid()[(x, y)])
                } else {
                    None
                }),
                items: Seq::<Seq<char>>::empty(),
            }) by {
                assert(d.cell_at(x, y).x == x && d.cell_at(x, y).y == y);
            }
        }
        d
    }
}

/// A copy of one room from the list.
fn rooms_index(rooms: &Vec<Room>, k: usize) -> (r: Room)
    requires
        k < rooms@.len(),
    ensures
        r == rooms@[k as int],
{
    rooms[k]
}

impl Clone for DesirableProperties {
    fn clone(&self) -> (r: Self)
        ensures
            r.seed.width == self.seed.width,
            r.seed.height == self.seed.height,
            r.seed.occupant_chance == self.seed.occupant_chance,
            r.seed.tiles.options_spec() == self.seed.tiles.options_spec(),
            r.seed.items.options_spec() == self.seed.items.options_spec(),
            r.seed.occupants.options_spec() == self.seed.occupants.options_spec(),
            r.room_number == self.room_number,
            r.room_size == self.room_size,
            r.doors == self.doors,
            r.monsters == self.monsters,
            r.branching_pct == self.branching_pct,
            r.occupants@ == self.occupants@,
            r.rooms@ == self.rooms@,
            r.mazes@.len() == self.mazes@.len(),
            forall|i: int|
                0 <= i < r.mazes@.len() ==> (#[trigger] r.mazes@[i]).path.elems@
                    == self.mazes@[i].path.elems@ && r.mazes@[i].path@ == self.mazes@[i].path@
                    && r.mazes@[i].region == self.mazes@[i].region,
            r.connectors@.len() == self.connectors@.len(),
            forall|i: int|
                0 <= i < r.connectors@.len() ==> (#[trigger] r.connectors@[i]).location
                    == self.connectors@[i].location && r.connectors@[i].regions@
                    == self.connectors@[i].regions@,
            r.entrance == self.entrance,
            r.exit == self.exit,
            self.wf() ==> r.wf(),
    {
        let mut occupants: Vec<(Occupant, (u32, u32))> = Vec::new();
        let mut m: usize = 0;
        while m < self.occupants.len()
            invariant
                m <= self.occupants@.len(),
                occupants@.len() == m,
                forall|i: int| 0 <= i < m ==> occupants@[i] == self.occupants@[i],
            decreases self.occupants@.len() - m,
        {
            let o = self.occupants[m].0.clone();
            let p = self.occupants[m].1;
            occupants.push((o, p));
            m = m + 1;
        }
        proof {
            assert(occupants@ =~= self.occupants@);
        }
        let mut rooms: Vec<Room> = Vec::new();
        let mut k: usize = 0;
        while k < self.rooms.len()
            invariant
                k <= self.rooms@.len(),
                rooms@.len() == k,
                forall|i: int| 0 <= i < k ==> rooms@[i] == self.rooms@[i],
            decreases self.rooms@.len() - k,
        {
            rooms.push(rooms_index(&self.rooms, k));
            k = k + 1;
        }
        proof {
            assert(rooms@ =~= self.rooms@);
        }
        let mut mazes: Vec<Maze> = Vec::new();
        let mut mk: usize = 0;
        while mk < self.mazes.len()
            invariant
                mk <= self.mazes@.len(),
                mazes@.len() == mk,
                forall|i: int|
                    0 <= i < mk ==> (#[trigger] mazes@[i]).path.elems@
                        == self.mazes@[i].path.elems@ && mazes@[i].path@ == self.mazes@[i].path@
                        && mazes@[i].region == self.mazes@[i].region,
            decreases self.mazes@.len() - mk,
        {
            mazes.push(self.mazes[mk].clone());
            mk = mk + 1;
        }
        let mut connectors: Vec<Connector> = Vec::new();
        let mut ck: usize = 0;
        while ck < self.connectors.len()
            invariant
                ck <= self.connectors@.len(),
                connectors@.len() == ck,
                forall|i: int|
                    0 <= i < ck ==> (#[trigger] connectors@[i]).location
                        == self.connectors@[i].location && connectors@[i].regions@
                        == self.connectors@[i].regions@,
            decreases self.connectors@.len() - ck,
        {
            connectors.push(self.connectors[ck].clone());
            ck = ck + 1;
        }
        DesirableProperties {
            seed: self.seed.clone(),
            room_number: self.room_number,
            room_size: self.room_size,
            doors: self.doors,
            monsters: self.monsters,
            branching_pct: self.branching_pct,
            occupants,
            rooms,
            mazes,
            connectors,
            entrance: match self.entrance {
                None => None,
                Some(p) => Some(p),
            },
            exit: match self.exit {
                None => None,
                Some(p) => Some(p),
            },
        }
    }
}

/// Two phenotypes of the same genotype hold the same contents, cell
/// for cell: `generate` is reproducible.
pub proof fn lemma_desirable_properties_reproducible(
    g: DesirableProperties,
    d1: Dungeon,
    d2: Dungeon,
)
    requires
        g.phenotype_matches(d1),
        g.phenotype_matches(d2),
    ensures
        d1.same_contents(d2),
{
}

} // verus!
