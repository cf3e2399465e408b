//! The dungeon grid: a dense two-dimensional array of cells.
//!
//! Every generator writes into a `Dungeon` and every evaluator reads
//! from one. The grid invariant — the cell stored at `(x, y)` carries
//! exactly those coordinates — is stated by `wf` and kept by every
//! constructor and mutator.

use vstd::prelude::*;

use crate::cell::{Cell, CellView};
use crate::celloption::{CellOption, Occupant, Tile};

verus! {

/// A dungeon: `width` columns of `height` cells each.
#[derive(Debug)]
pub struct Dungeon {
    pub width: usize,
    pub height: usize,
    pub cells: Vec<Vec<Cell>>,
}

impl Dungeon {
    /// The grid invariant: the array is dense, each dimension is small
    /// enough that index arithmetic and cell counts cannot overflow,
    /// and the cell stored at `(x, y)` carries those coordinates.
    pub open spec fn wf(self) -> bool {
        &&& self.width <= 0xFFFF
        &&& self.height <= 0xFFFF
        &&& self.cells@.len() == self.width
        &&& (forall|x: int| 0 <= x < self.width ==> (#[trigger] self.cells@[x])@.len() == self.height)
        &&& (forall|x: int, y: int|
            0 <= x < self.width && 0 <= y < self.height ==> (#[trigger] self.cells@[x]@[y]).x as int
                == x && self.cells@[x]@[y].y as int == y)
    }

    /// The content of the cell at `(x, y)`.
    pub open spec fn cell_at(self, x: int, y: int) -> CellView {
        self.cells@[x]@[y]@
    }

    /// The name of the tile at `(x, y)`, if any.
    pub open spec fn tile_at(self, x: int, y: int) -> Option<Seq<char>> {
        self.cell_at(x, y).tile
    }

    /// The name of the occupant at `(x, y)`, if any.
    pub open spec fn occupant_at(self, x: int, y: int) -> Option<Seq<char>> {
        self.cell_at(x, y).occupant
    }

    /// Whether `(x, y)` lies on the grid.
    pub open spec fn in_bounds_spec(self, x: int, y: int) -> bool {
        0 <= x < self.width && 0 <= y < self.height
    }

    /// Two dungeons hold the same contents: equal dimensions and,
    /// coordinate for coordinate, equal cell contents.
    pub open spec fn same_contents(self, other: Dungeon) -> bool {
        &&& self.width == other.width
        &&& self.height == other.height
        &&& (forall|x: int, y: int|
            0 <= x < self.width && 0 <= y < self.height ==> #[trigger] self.cell_at(x, y)
                == other.cell_at(x, y))
    }

    /// A fully initialised grid, every cell carrying the given tile,
    /// no occupants and no items.
    pub fn new(width: u32, height: u32, tile: Option<Tile>) -> (r: Dungeon)
        requires
            width <= 0xFFFF,
            height <= 0xFFFF,
        ensures
            r.wf(),
            r.width == width as int,
            r.height == height as int,
            forall|x: int, y: int|
                0 <= x < width && 0 <= y < height ==> #[trigger] r.cell_at(x, y) == (CellView {
                    x,
                    y,
                    tile: match tile {
                        None => None::<Seq<char>>,
                        Some(t) => Some(t.name_spec()),
                    },
                    occupant: None,
                    items: Seq::<Seq<char>>::empty(),
                }),
    {
        let ghost tile_name: Option<Seq<char>> = match &tile {
            None => None,
            Some(t) => Some(t.name_spec()),
        };
        let mut cells: Vec<Vec<Cell>> = Vec::new();
        let mut i: u32 = 0;
        while i < width
            invariant
                i <= width,
                cells@.len() == i,
                tile_name == (match tile {
                    None => None::<Seq<char>>,
                    Some(t) => Some(t.name_spec()),
                }),
                forall|x: int| 0 <= x < i ==> (#[trigger] cells@[x])@.len() == height,
                forall|x: int, y: int|
                    0 <= x < i && 0 <= y < height ==> (#[trigger] cells@[x]@[y])@ == (CellView {
                        x,
                        y,
                        tile: tile_name,
                        occupant: None,
                        items: Seq::<Seq<char>>::empty(),
                    }) && cells@[x]@[y].x as int == x && cells@[x]@[y].y as int == y,
            decreases width - i,
        {
            let mut column: Vec<Cell> = Vec::new();
            let mut j: u32 = 0;
            while j < height
                invariant
                    j <= height,
                    column@.len() == j,
                    tile_name == (match tile {
                        None => None::<Seq<char>>,
                        Some(t) => Some(t.name_spec()),
                    }),
                    forall|y: int|
                        0 <= y < j ==> (#[trigger] column@[y])@ == (CellView {
                            x: i as int,
                            y,
                            tile: tile_name,
                            occupant: None,
                            items: Seq::<Seq<char>>::empty(),
                        }) && column@[y].x == i && column@[y].y as int == y,
                decreases height - j,
            {
                let t: Option<Tile> = match &tile {
                    None => None,
                    Some(t) => Some(t.clone()),
                };
                column.push(Cell::new(i, j, t));
                j = j + 1;
            }
            cells.push(column);
            i = i + 1;
        }
        Dungeon { width: width as usize, height: height as usize, cells }
    }

    /// Whether `(x, y)` lies on the grid.
    pub fn in_bounds(&self, x: i32, y: i32) -> (r: bool)
        ensures
            r == self.in_bounds_spec(x as int, y as int),
    {
        x >= 0 && (x as usize) < self.width && y >= 0 && (y as usize) < self.height
    }

    /// The cell at `(x, y)`.
    pub fn get_cell(&self, x: u32, y: u32) -> (r: &Cell)
        requires
            self.wf(),
            self.in_bounds_spec(x as int, y as int),
        ensures
            r@ == self.cell_at(x as int, y as int),
            r.x == x,
            r.y == y,
    {
        &self.cells[x as usize][y as usize]
    }

    /// Stamp a tile at `(x, y)`; everything else is untouched.
    pub fn set_tile(&mut self, x: u32, y: u32, tile: &Tile)
        requires
            old(self).wf(),
            old(self).in_bounds_spec(x as int, y as int),
        ensures
            final(self).wf(),
            final(self).width == old(self).width,
            final(self).height == old(self).height,
            final(self).cell_at(x as int, y as int) == (CellView {
                tile: Some(tile.name_spec()),
                ..old(self).cell_at(x as int, y as int)
            }),
            forall|a: int, b: int|
                0 <= a < old(self).width && 0 <= b < old(self).height && !(a == x as int && b
                    == y as int) ==> #[trigger] final(self).cell_at(a, b) == old(self).cell_at(a, b),
    {
        let xi = x as usize;
        let yi = y as usize;
        let mut column = self.cells[xi].clone();
        proof {
            let oldcol = self.cells@[xi as int];
            assert forall|y2: int| 0 <= y2 < oldcol@.len() implies (#[trigger] column@[y2])@
                == oldcol@[y2]@ && column@[y2].x == oldcol@[y2].x && column@[y2].y
                == oldcol@[y2].y by {
                assert(cloned(oldcol@[y2], column@[y2]));
            }
        }
        let mut c = column[yi].clone();
        c.tile = Some(tile.clone());
        column.set(yi, c);
        self.cells.set(xi, column);
    }

    /// Stand an occupant at `(x, y)`; everything else is untouched.
    pub fn set_occupant(&mut self, x: u32, y: u32, occupant: &Occupant)
        requires
            old(self).wf(),
            old(self).in_bounds_spec(x as int, y as int),
        ensures
            final(self).wf(),
            final(self).width == old(self).width,
            final(self).height == old(self).height,
            final(self).cell_at(x as int, y as int) == (CellView {
                occupant: Some(occupant.name_spec()),
                ..old(self).cell_at(x as int, y as int)
            }),
            forall|a: int, b: int|
                0 <= a < old(self).width && 0 <= b < old(self).height && !(a == x as int && b
                    == y as int) ==> #[trigger] final(self).cell_at(a, b) == old(self).cell_at(a, b),
    {
        let xi = x as usize;
        let yi = y as usize;
        let mut column = self.cells[xi].clone();
        proof {
            let oldcol = self.cells@[xi as int];
            assert forall|y2: int| 0 <= y2 < oldcol@.len() implies (#[trigger] column@[y2])@
                == oldcol@[y2]@ && column@[y2].x == oldcol@[y2].x && column@[y2].y
                == oldcol@[y2].y by {
                assert(cloned(oldcol@[y2], column@[y2]));
            }
        }
        let mut c = column[yi].clone();
        c.occupant = Some(occupant.clone());
        column.set(yi, c);
        self.cells.set(xi, column);
    }

    /// Whether the tile at `(x, y)` carries the given name.
    pub fn has_attribute(&self, x: u32, y: u32, attribute: &str) -> (r: bool)
        requires
            self.wf(),
            self.in_bounds_spec(x as int, y as int),
        ensures
            r == self.cell_at(x as int, y as int).has_attribute(attribute@),
    {
        self.cells[x as usize][y as usize].has_attribute(attribute)
    }

    /// Whether the cell at `(x, y)` is passable ground.
    pub fn is_empty(&self, x: u32, y: u32) -> (r: bool)
        requires
            self.wf(),
            self.in_bounds_spec(x as int, y as int),
        ensures
            r == self.cell_at(x as int, y as int).is_empty(),
    {
        self.cells[x as usize][y as usize].is_empty()
    }
}

impl Clone for Dungeon {
    fn clone(&self) -> (r: Self)
        ensures
            r.width == self.width,
            r.height == self.height,
            r.cells@.len() == self.cells@.len(),
            forall|x: int|
                0 <= x < self.cells@.len() ==> (#[trigger] r.cells@[x])@.len()
                    == self.cells@[x]@.len(),
            forall|x: int, y: int|
                0 <= x < self.cells@.len() && 0 <= y < self.cells@[x]@.len() ==> (
                #[trigger] r.cells@[x]@[y])@ == self.cells@[x]@[y]@ && r.cells@[x]@[y].x
                    == self.cells@[x]@[y].x && r.cells@[x]@[y].y == self.cells@[x]@[y].y,
            self.wf() ==> r.wf() && r.same_contents(*self),
    {
        let mut cells: Vec<Vec<Cell>> = Vec::new();
        let mut i: usize = 0;
        while i < self.cells.len()
            invariant
                i <= self.cells@.len(),
                cells@.len() == i,
                forall|x: int|
                    0 <= x < i ==> (#[trigger] cells@[x])@.len() == self.cells@[x]@.len(),
                forall|x: int, y: int|
                    0 <= x < i && 0 <= y < self.cells@[x]@.len() ==> (#[trigger] cells@[x]@[y])@
                        == self.cells@[x]@[y]@ && cells@[x]@[y].x == self.cells@[x]@[y].x
                        && cells@[x]@[y].y == self.cells@[x]@[y].y,
            decreases self.cells@.len() - i,
        {
            let column = self.cells[i].clone();
            proof {
                let oldcol = self.cells@[i as int];
                assert forall|y2: int| 0 <= y2 < oldcol@.len() implies (#[trigger] column@[y2])@
                    == oldcol@[y2]@ && column@[y2].x == oldcol@[y2].x && column@[y2].y
                    == oldcol@[y2].y by {
                    assert(cloned(oldcol@[y2], column@[y2]));
                }
            }
            cells.push(column);
            i = i + 1;
        }
        Dungeon { width: self.width, height: self.height, cells }
    }
}

/// A traversal over all cells, column index moving fastest, row index
/// wrapping upward: `(0,0), (1,0), ..., (w-1,0), (0,1), ...`.
#[derive(Debug)]
pub struct DungeonCells {
    pub dungeon: Dungeon,
    pub coords: (u32, u32),
}

impl DungeonCells {
    /// Start a traversal over a copy of the dungeon.
    pub fn new(dungeon: &Dungeon) -> (r: DungeonCells)
        requires
            dungeon.wf(),
        ensures
            r.dungeon.wf(),
            r.dungeon.same_contents(*dungeon),
            r.coords == (0u32, 0u32),
    {
        DungeonCells { dungeon: dungeon.clone(), coords: (0, 0) }
    }

    /// The next cell, or `None` once the grid is exhausted.
    pub fn next(&mut self) -> (r: Option<Cell>)
        requires
            old(self).dungeon.wf(),
        ensures
            final(self).dungeon == old(self).dungeon,
            ({
                let x = old(self).coords.0 as int;
                let y = old(self).coords.1 as int;
                if old(self).dungeon.in_bounds_spec(x, y) {
                    &&& r is Some
                    &&& r->0@ == old(self).dungeon.cell_at(x, y)
                    &&& final(self).coords.0 as int == (if x + 1 == old(self).dungeon.width {
                        0
                    } else {
                        x + 1
                    })
                    &&& final(self).coords.1 as int == (if x + 1 == old(self).dungeon.width {
                        y + 1
                    } else {
                        y
                    })
                } else {
                    r is None && final(self).coords == old(self).coords
                }
            }),
    {
        let (x, y) = self.coords;
        if (x as usize) < self.dungeon.width && (y as usize) < self.dungeon.height {
            let c = self.dungeon.get_cell(x, y).clone();
            let new_x = if (x + 1) as usize == self.dungeon.width {
                0
            } else {
                x + 1
            };
            let new_y = if new_x == 0 {
                y + 1
            } else {
                y
            };
            self.coords = (new_x, new_y);
            Some(c)
        } else {
            None
        }
    }
}

/// Which neighborhood a `SurroundingCells` traversal walks.
#[derive(Clone, Copy, Debug)]
pub enum Surrounding {
    Cardinal,
    AllDirections,
}

/// The four cardinal steps, clockwise from the top.
pub open spec fn cardinal_offsets() -> Seq<(int, int)> {
    seq![(0int, -1int), (1int, 0int), (0int, 1int), (-1int, 0int)]
}

/// All eight steps, clockwise from the top.
pub open spec fn all_offsets() -> Seq<(int, int)> {
    seq![
        (0int, -1int),
        (1int, -1int),
        (1int, 0int),
        (1int, 1int),
        (0int, 1int),
        (-1int, 1int),
        (-1int, 0int),
        (-1int, -1int),
    ]
}

/// The steps a neighborhood kind walks, in order.
pub open spec fn offsets_of(around: Surrounding) -> Seq<(int, int)> {
    match around {
        Surrounding::Cardinal => cardinal_offsets(),
        Surrounding::AllDirections => all_offsets(),
    }
}

/// The cells reached from `(x, y)` by the given steps, keeping only
/// those on the grid, in step order.
pub open spec fn neighbor_views(d: Dungeon, x: int, y: int, offs: Seq<(int, int)>) -> Seq<CellView>
    decreases offs.len(),
{
    if offs.len() == 0 {
        Seq::empty()
    } else {
        let rest = neighbor_views(d, x, y, offs.drop_last());
        let o = offs.last();
        if d.in_bounds_spec(x + o.0, y + o.1) {
            rest.push(d.cell_at(x + o.0, y + o.1))
        } else {
            rest
        }
    }
}

/// A traversal over the in-bounds neighbors of one cell, clockwise from
/// the top.
#[derive(Debug)]
pub struct SurroundingCells {
    pub cells: Vec<Cell>,
    pub index: usize,
}

impl SurroundingCells {
    /// Collect the in-bounds neighbors of `(x, y)`.
    pub fn new(dungeon: &Dungeon, x: u32, y: u32, around: Surrounding) -> (r: SurroundingCells)
        requires
            dungeon.wf(),
            dungeon.in_bounds_spec(x as int, y as int),
        ensures
            r.cells@.map_values(|c: Cell| c@) == neighbor_views(
                *dungeon,
                x as int,
                y as int,
                offsets_of(around),
            ),
            r.index == 0,
    {
        let offs: Vec<(i32, i32)> = match around {
            Surrounding::Cardinal => vec![(0, -1), (1, 0), (0, 1), (-1, 0)],
            Surrounding::AllDirections => vec![
                (0, -1),
                (1, -1),
                (1, 0),
                (1, 1),
                (0, 1),
                (-1, 1),
                (-1, 0),
                (-1, -1),
            ],
        };
        let ghost soffs = offsets_of(around);
        proof {
            assert(offs@.len() == soffs.len());
            assert(forall|i: int|
                0 <= i < soffs.len() ==> (#[trigger] offs@[i]).0 as int == soffs[i].0
                    && offs@[i].1 as int == soffs[i].1);
        }
        let mut cells: Vec<Cell> = Vec::new();
        let mut k: usize = 0;
        while k < offs.len()
            invariant
                k <= offs@.len(),
                offs@.len() == soffs.len(),
                forall|i: int|
                    0 <= i < soffs.len() ==> (#[trigger] offs@[i]).0 as int == soffs[i].0
                        && offs@[i].1 as int == soffs[i].1,
                forall|i: int|
                    0 <= i < soffs.len() ==> -1 <= (#[trigger] soffs[i]).0 <= 1 && -1 <= soffs[i].1
                        <= 1,
                dungeon.wf(),
                dungeon.in_bounds_spec(x as int, y as int),
                x <= 0xFFFF,
                y <= 0xFFFF,
                cells@.map_values(|c: Cell| c@) == neighbor_views(
                    *dungeon,
                    x as int,
                    y as int,
                    soffs.take(k as int),
                ),
            decreases offs@.len() - k,
        {
            let (dx, dy) = offs[k];
            let nx = x as i64 + dx as i64;
            let ny = y as i64 + dy as i64;
            let ghost pre = cells@;
            if nx >= 0 && nx < dungeon.width as i64 && ny >= 0 && ny < dungeon.height as i64 {
                let c = dungeon.get_cell(nx as u32, ny as u32).clone();
                cells.push(c);
            }
            proof {
                let t = soffs.take(k as int + 1);
                assert(t.drop_last() =~= soffs.take(k as int));
                assert(t.last() == soffs[k as int]);
                if dungeon.in_bounds_spec(x as int + soffs[k as int].0, y as int + soffs[k as int].1) {
                    assert(cells@.map_values(|c: Cell| c@) =~= pre.map_values(|c: Cell| c@).push(
                        dungeon.cell_at(x as int + soffs[k as int].0, y as int + soffs[k as int].1),
                    ));
                } else {
                    assert(cells@.map_values(|c: Cell| c@) == pre.map_values(|c: Cell| c@));
                }
                assert(cells@.map_values(|c: Cell| c@) == neighbor_views(
                    *dungeon,
                    x as int,
                    y as int,
                    t,
                ));
            }
            k = k + 1;
        }
        proof {
            assert(soffs.take(soffs.len() as int) =~= soffs);
        }
        SurroundingCells { cells, index: 0 }
    }

    /// The next neighbor, or `None` once all have been seen.
    pub fn next(&mut self) -> (r: Option<Cell>)
        ensures
            final(self).cells == old(self).cells,
            if old(self).index < old(self).cells@.len() {
                &&& r is Some
                &&& r->0@ == old(self).cells@[old(self).index as int]@
                &&& final(self).index == old(self).index + 1
            } else {
                r is None && final(self).index == old(self).index
            },
    {
        if self.index < self.cells.len() {
            let c = self.cells[self.index].clone();
            self.index = self.index + 1;
            Some(c)
        } else {
            None
        }
    }
}

/// The grid invariant, stated on its own: in a well-formed dungeon the
/// cell stored at `(x, y)` carries exactly those coordinates.
pub proof fn lemma_grid_invariant(d: Dungeon)
    requires
        d.wf(),
    ensures
        forall|x: int, y: int|
            0 <= x < d.width && 0 <= y < d.height ==> #[trigger] d.cell_at(x, y).x == x && d.cell_at(
                x,
                y,
            ).y == y,
{
}

} // verus!
