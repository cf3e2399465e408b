//! One cell of the dungeon grid.
//!
//! A cell is identified by its position: two cells are the same cell
//! exactly when their coordinates agree, whatever their contents,
//! because the algorithms compare and cache cells by location while
//! contents evolve.

use vstd::prelude::*;

use crate::celloption::{CellOption, Item, Occupant, Tile};

verus! {

/// The mathematical content of a cell: its position and the names of
/// the tags it carries.
#[verifier::ext_equal]
pub ghost struct CellView {
    pub x: int,
    pub y: int,
    pub tile: Option<Seq<char>>,
    pub occupant: Option<Seq<char>>,
    pub items: Seq<Seq<char>>,
}

impl CellView {
    /// Whether the tile carries the given name.
    pub open spec fn has_attribute(self, attribute: Seq<char>) -> bool {
        self.tile == Some(attribute)
    }

    /// Whether the cell is passable ground: no tile at all, or a floor tile.
    pub open spec fn is_empty(self) -> bool {
        match self.tile {
            None => true,
            Some(name) => name == "floor"@,
        }
    }
}

/// A grid cell: a position, an optional tile tag, an optional occupant
/// tag, and a list of item tags.
#[derive(Debug)]
pub struct Cell {
    pub x: u32,
    pub y: u32,
    pub tile: Option<Tile>,
    pub occupant: Option<Occupant>,
    pub items: Vec<Item>,
}

impl View for Cell {
    type V = CellView;

    open spec fn view(&self) -> CellView {
        CellView {
            x: self.x as int,
            y: self.y as int,
            tile: match self.tile {
                None => None,
                Some(t) => Some(t.name_spec()),
            },
            occupant: match self.occupant {
                None => None,
                Some(o) => Some(o.name_spec()),
            },
            items: self.items@.map(|i: int, it: Item| it.name_spec()),
        }
    }
}

impl Cell {
    /// A fresh cell at the given position carrying the given tile.
    pub fn new(x: u32, y: u32, tile: Option<Tile>) -> (r: Cell)
        ensures
            r.x == x,
            r.y == y,
            r@.x == x as int,
            r@.y == y as int,
            r@.tile == (match tile {
                None => None::<Seq<char>>,
                Some(t) => Some(t.name_spec()),
            }),
            r@.occupant is None,
            r@.items == Seq::<Seq<char>>::empty(),
    {
        let c = Cell { x, y, tile, occupant: None, items: Vec::new() };
        proof {
            assert(c@.items =~= Seq::<Seq<char>>::empty());
        }
        c
    }

    /// Whether the tile carries the given name.
    pub fn has_attribute(&self, attribute: &str) -> (r: bool)
        ensures
            r == self@.has_attribute(attribute@),
    {
        match &self.tile {
            None => false,
            Some(t) => t.name() == attribute.to_owned(),
        }
    }

    /// Whether the cell is passable ground.
    pub fn is_empty(&self) -> (r: bool)
        ensures
            r == self@.is_empty(),
    {
        match &self.tile {
            None => true,
            Some(t) => t.name() == "floor".to_owned(),
        }
    }

    /// Put an occupant on the cell, replacing any present.
    pub fn add(&mut self, occupant: &Occupant)
        ensures
            final(self)@ == (CellView {
                occupant: Some(occupant.name_spec()),
                ..old(self)@
            }),
            final(self).x == old(self).x,
            final(self).y == old(self).y,
    {
        self.occupant = Some(occupant.clone());
        proof {
            assert(self@ =~= (CellView { occupant: Some(occupant.name_spec()), ..old(self)@ }));
        }
    }
}

impl Clone for Cell {
    fn clone(&self) -> (r: Self)
        ensures
            r@ == self@,
            r.x == self.x,
            r.y == self.y,
    {
        let tile: Option<Tile> = match &self.tile {
            None => None,
            Some(t) => Some(t.clone()),
        };
        let occupant: Option<Occupant> = match &self.occupant {
            None => None,
            Some(o) => Some(o.clone()),
        };
        let mut items: Vec<Item> = Vec::new();
        let mut k: usize = 0;
        while k < self.items.len()
            invariant
                k <= self.items@.len(),
                items@.len() == k,
                forall|i: int| 0 <= i < k ==> items@[i] == self.items@[i],
            decreases self.items@.len() - k,
        {
            items.push(self.items[k].clone());
            k = k + 1;
        }
        proof {
            assert(items@ =~= self.items@);
        }
        let r = Cell { x: self.x, y: self.y, tile, occupant, items };
        proof {
            assert(r@ =~= self@);
        }
        r
    }
}

/// Two cells are the same cell exactly when their positions agree.
impl PartialEq for Cell {
    fn eq(&self, other: &Cell) -> (r: bool) {
        self.x == other.x && self.y == other.y
    }
}

impl vstd::std_specs::cmp::PartialEqSpecImpl for Cell {
    open spec fn obeys_eq_spec() -> bool {
        true
    }

    open spec fn eq_spec(&self, other: &Cell) -> bool {
        self.x == other.x && self.y == other.y
    }
}

} // verus!
