//! The grid, catalog and evaluator primitives, exercised on concrete
//! values.

use pcg_dungeon::cell::Cell;
use pcg_dungeon::celloption::{CellOption, CellOptions, Occupant, Tile};
use pcg_dungeon::sprite::SpriteRect;
use pcg_dungeon::dungeon::{Dungeon, DungeonCells, Surrounding, SurroundingCells};
use pcg_dungeon::evaluation::{
    check_1x1_rooms, doors_are_useful, has_entrance_exit, is_accessible, rooms_are_accessible,
    search,
};
use pcg_dungeon::coords::CoordSet;
use pcg_dungeon::rng::rng_from_seed;
use pcg_dungeon::statistics::Statistic;
use pcg_dungeon::util::{odds, shuffle};

fn names(list: &[&str]) -> Vec<String> {
    list.iter().map(|s| s.to_string()).collect()
}

#[test]
fn grid_invariant_holds_for_every_cell() {
    let tiles: CellOptions<Tile> = CellOptions::new(&names(&["floor"]));
    let floor = tiles.get("floor").unwrap().clone();
    let d = Dungeon::new(7, 5, Some(floor));
    assert_eq!(d.width, 7);
    assert_eq!(d.height, 5);
    for x in 0..7u32 {
        for y in 0..5u32 {
            let c = d.get_cell(x, y);
            assert_eq!(c.x, x);
            assert_eq!(c.y, y);
            assert!(c.has_attribute("floor"));
        }
    }
}

#[test]
fn catalog_sample_returns_distinct_members() {
    let tiles: CellOptions<Tile> = CellOptions::new(&names(&["a", "b", "c", "d", "e"]));
    let mut rng = rng_from_seed(7);
    let picked = tiles.sample(&mut rng, 3);
    assert_eq!(picked.len(), 3);
    for i in 0..picked.len() {
        for j in 0..picked.len() {
            if i != j {
                assert_ne!(picked[i].name(), picked[j].name());
            }
        }
        let n = picked[i].name();
        assert!(["a", "b", "c", "d", "e"].contains(&n.as_str()));
    }
}

#[test]
fn catalog_pick_returns_a_member() {
    let tiles: CellOptions<Tile> = CellOptions::new(&names(&["only"]));
    let mut rng = rng_from_seed(3);
    for _ in 0..10 {
        assert_eq!(tiles.pick(&mut rng).name(), "only");
    }
}

#[test]
fn odds_certainties() {
    let mut rng = rng_from_seed(11);
    for _ in 0..20 {
        assert!(!odds(&mut rng, 0, 100));
        assert!(odds(&mut rng, 100, 100));
    }
}

#[test]
fn shuffle_keeps_contents() {
    let mut rng = rng_from_seed(5);
    let mut v: Vec<u32> = vec![1, 2, 3, 4, 5];
    shuffle(&mut rng, &mut v);
    assert_eq!(v.len(), 5);
    let mut sorted = v.clone();
    sorted.sort();
    assert_eq!(sorted, vec![1, 2, 3, 4, 5]);
}

#[test]
fn statistic_empty_is_unscored() {
    let s = Statistic::empty();
    assert_eq!(s.iteration, 0);
    assert_eq!(s.fitness, -1);
    let t = Statistic::new(4, 17);
    assert_eq!(t.iteration, 4);
    assert_eq!(t.fitness, 17);
}

fn small_dungeon() -> (Dungeon, Tile, Tile, Tile, Tile, Tile) {
    let tiles: CellOptions<Tile> =
        CellOptions::new(&names(&["floor", "wall", "door", "entrance", "exit"]));
    let floor = tiles.get("floor").unwrap().clone();
    let wall = tiles.get("wall").unwrap().clone();
    let door = tiles.get("door").unwrap().clone();
    let entrance = tiles.get("entrance").unwrap().clone();
    let exit = tiles.get("exit").unwrap().clone();
    let d = Dungeon::new(3, 3, Some(floor.clone()));
    (d, floor, wall, door, entrance, exit)
}

#[test]
fn one_by_one_rooms_are_counted() {
    let (d3, _floor2, wall, _door, _e, _x) = small_dungeon();
    assert_eq!(check_1x1_rooms(&d3), 0);
    // on a wider grid, wall off the center cell's four cardinal
    // neighbors: only the center is surrounded
    let tiles: CellOptions<Tile> = CellOptions::new(&names(&["floor", "wall"]));
    let floor = tiles.get("floor").unwrap().clone();
    let mut d = Dungeon::new(5, 5, Some(floor));
    d.set_tile(2, 1, &wall);
    d.set_tile(1, 2, &wall);
    d.set_tile(3, 2, &wall);
    d.set_tile(2, 3, &wall);
    assert_eq!(check_1x1_rooms(&d), 1);
}

#[test]
fn entrance_exit_scores_two_one_zero() {
    let (mut d, _floor, _wall, _door, entrance, exit) = small_dungeon();
    assert_eq!(has_entrance_exit(&d), 0);
    d.set_tile(0, 0, &entrance);
    assert_eq!(has_entrance_exit(&d), 1);
    d.set_tile(2, 2, &exit);
    assert_eq!(has_entrance_exit(&d), 2);
}

#[test]
fn doors_need_two_walls() {
    let (mut d, _floor, wall, door, _e, _x) = small_dungeon();
    assert_eq!(doors_are_useful(&d), 0);
    // a door in a proper corridor: walls left and right
    d.set_tile(1, 1, &door);
    d.set_tile(0, 1, &wall);
    d.set_tile(2, 1, &wall);
    assert_eq!(doors_are_useful(&d), 0);
    // a second door with no walls at all around it counts against
    d.set_tile(1, 0, &door);
    assert_eq!(doors_are_useful(&d), 1);
}

#[test]
fn accessibility_counts_sweeps() {
    let (d, _floor, wall, _door, _e, _x) = small_dungeon();
    // all floor: one sweep covers everything
    assert_eq!(rooms_are_accessible(&d), 1);
    // no accessible cell at all
    let walled = Dungeon::new(2, 2, Some(wall.clone()));
    assert_eq!(rooms_are_accessible(&walled), 0);
    // two islands separated by a wall column
    let tiles: CellOptions<Tile> = CellOptions::new(&names(&["floor", "wall"]));
    let floor = tiles.get("floor").unwrap().clone();
    let mut split = Dungeon::new(3, 1, Some(floor));
    split.set_tile(1, 0, &wall);
    assert_eq!(rooms_are_accessible(&split), 2);
}

#[test]
fn search_collects_a_component() {
    let (d, _floor, _wall, _door, _e, _x) = small_dungeon();
    let visited = CoordSet::new();
    let c = d.get_cell(0, 0);
    assert!(is_accessible(c));
    let swept = search(&d, &visited, 0, 0);
    for x in 0..3u32 {
        for y in 0..3u32 {
            assert!(swept.contains(x, y));
        }
    }
}

#[test]
fn traversals_visit_in_order() {
    let (d, _floor, _wall, _door, _e, _x) = small_dungeon();
    let mut dc = DungeonCells::new(&d);
    let first = dc.next().unwrap();
    assert_eq!((first.x, first.y), (0, 0));
    let second = dc.next().unwrap();
    assert_eq!((second.x, second.y), (1, 0));
    let mut count = 2;
    while dc.next().is_some() {
        count += 1;
    }
    assert_eq!(count, 9);
    let mut sc = SurroundingCells::new(&d, 0, 0, Surrounding::Cardinal);
    let mut neighbors = Vec::new();
    while let Some(c) = sc.next() {
        neighbors.push((c.x, c.y));
    }
    assert_eq!(neighbors, vec![(1, 0), (0, 1)]);
    let mut sc8 = SurroundingCells::new(&d, 1, 1, Surrounding::AllDirections);
    let mut count8 = 0;
    while sc8.next().is_some() {
        count8 += 1;
    }
    assert_eq!(count8, 8);
}

#[test]
fn occupants_stand_on_cells() {
    let occupants: CellOptions<Occupant> = CellOptions::new(&names(&["slime"]));
    let (mut d, _floor, _wall, _door, _e, _x) = small_dungeon();
    let o = occupants.get("slime").unwrap().clone();
    d.set_occupant(2, 1, &o);
    let c = d.get_cell(2, 1);
    assert_eq!(c.occupant.as_ref().unwrap().name(), "slime");
    assert!(d.get_cell(0, 0).occupant.is_none());
}

#[test]
fn cells_are_equal_by_position_only() {
    let tiles: CellOptions<Tile> = CellOptions::new(&names(&["floor", "wall"]));
    let floor = tiles.get("floor").unwrap().clone();
    let wall = tiles.get("wall").unwrap().clone();
    let a = Cell::new(2, 3, Some(floor));
    let b = Cell::new(2, 3, Some(wall));
    let c = Cell::new(3, 2, None);
    assert!(a == b);
    assert!(a != c);
    assert!(c.is_empty());
    assert!(!Cell::new(0, 0, Some(tiles.get("wall").unwrap().clone())).is_empty());
}

#[test]
fn cell_add_stands_an_occupant() {
    let occupants: CellOptions<Occupant> = CellOptions::new(&names(&["slime"]));
    let o = occupants.get("slime").unwrap().clone();
    let mut c = Cell::new(1, 1, None);
    assert!(c.occupant.is_none());
    c.add(&o);
    assert_eq!(c.occupant.as_ref().unwrap().name(), "slime");
}

#[test]
fn sprite_rect_reports_its_size() {
    let r = SpriteRect::new(3, 4, 16, 24);
    assert_eq!(r.get_width(), 16);
    assert_eq!(r.get_height(), 24);
    assert_eq!((r.x, r.y), (3, 4));
}
