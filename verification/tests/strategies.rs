//! The four generation strategies, driven end to end on concrete
//! scenarios.

use pcg_dungeon::celloption::{CellOption, CellOptions, Item, Occupant, Tile};
use pcg_dungeon::coords::CoordSet;
use pcg_dungeon::desirable_properties::{Connector, DesirableProperties, Maze, Room};
use pcg_dungeon::evaluation::rooms_are_accessible;
use pcg_dungeon::list_of_walls::ListOfWalls;
use pcg_dungeon::phenotype::Seed;
use pcg_dungeon::random_seed::RandomSeed;
use pcg_dungeon::rng::rng_from_seed;
use pcg_dungeon::wall_patterns::{Pattern, WallPatterns};

fn names(list: &[&str]) -> Vec<String> {
    list.iter().map(|s| s.to_string()).collect()
}

fn seed_with(width: u32, height: u32, tile_names: &[&str], chance: u32) -> Seed {
    let tiles: CellOptions<Tile> = CellOptions::new(&names(tile_names));
    let items: CellOptions<Item> = CellOptions::new(&names(&["key"]));
    let occupants: CellOptions<Occupant> = CellOptions::new(&names(&["slime"]));
    Seed::new(width, height, tiles, items, occupants, chance)
}

#[test]
fn random_seed_fills_with_the_only_tile() {
    // a one-entry tile catalog leaves the strategy no choice at all
    let seed = seed_with(10, 10, &["floor"], 0);
    let mut rng = rng_from_seed(42);
    let blank = RandomSeed::new(&seed);
    let rolled = blank.initialize(&mut rng);
    let d = rolled.generate();
    assert_eq!(d.width, 10);
    assert_eq!(d.height, 10);
    for x in 0..10u32 {
        for y in 0..10u32 {
            assert!(d.has_attribute(x, y, "floor"));
        }
    }
}

#[test]
fn random_seed_generate_is_reproducible() {
    let seed = seed_with(6, 4, &["floor", "wall"], 50);
    let mut rng = rng_from_seed(9);
    let rolled = RandomSeed::new(&seed).initialize(&mut rng);
    let d1 = rolled.generate();
    let d2 = rolled.generate();
    for x in 0..6u32 {
        for y in 0..4u32 {
            let c1 = d1.get_cell(x, y);
            let c2 = d2.get_cell(x, y);
            assert_eq!(
                c1.tile.as_ref().map(|t| t.name()),
                c2.tile.as_ref().map(|t| t.name())
            );
            assert_eq!(
                c1.occupant.as_ref().map(|o| o.name()),
                c2.occupant.as_ref().map(|o| o.name())
            );
        }
    }
}

#[test]
fn empty_wall_list_yields_all_floor() {
    // no walls drawn and no entrance or exit chosen: the floor fill is
    // all that remains
    let seed = seed_with(8, 8, &["floor", "wall", "door", "entrance", "exit"], 0);
    let blank = ListOfWalls::new(&seed, 30, 20);
    let d = blank.generate();
    for x in 0..8u32 {
        for y in 0..8u32 {
            assert!(d.has_attribute(x, y, "floor"));
        }
    }
}

#[test]
fn list_of_walls_generate_is_reproducible() {
    let seed = seed_with(12, 9, &["floor", "wall", "door", "entrance", "exit"], 10);
    let mut rng = rng_from_seed(21);
    let rolled = ListOfWalls::new(&seed, 30, 20).initialize(&mut rng);
    let d1 = rolled.generate();
    let d2 = rolled.generate();
    for x in 0..12u32 {
        for y in 0..9u32 {
            let c1 = d1.get_cell(x, y);
            let c2 = d2.get_cell(x, y);
            assert_eq!(
                c1.tile.as_ref().map(|t| t.name()),
                c2.tile.as_ref().map(|t| t.name())
            );
        }
    }
}

#[test]
fn wall_patterns_tile_the_grid() {
    let seed = seed_with(4, 4, &["floor", "wall"], 0);
    let mapping: Vec<(char, Tile)> = vec![
        ('#', Tile { name: "wall".to_string() }),
        ('.', Tile { name: "floor".to_string() }),
    ];
    let description = names(&["##", ".."]);
    let pattern = Pattern::from_config(&mapping, &description, 2, 2);
    let blank = WallPatterns::new(&seed, vec![pattern], 2, 2);
    let mut rng = rng_from_seed(2);
    let rolled = blank.initialize(&mut rng);
    let d = rolled.generate();
    // rows are read bottom-up: the wall row of the stamp lands on the
    // higher row of each two-by-two block
    for x in 0..4u32 {
        for y in 0..4u32 {
            if y % 2 == 1 {
                assert!(d.has_attribute(x, y, "wall"));
            } else {
                assert!(d.has_attribute(x, y, "floor"));
            }
        }
    }
}

#[test]
fn pattern_parse_maps_symbols() {
    let mapping: Vec<(char, Tile)> = vec![('#', Tile { name: "wall".to_string() })];
    let description = names(&["#.", ".#"]);
    let pattern = Pattern::from_config(&mapping, &description, 2, 2);
    assert_eq!(pattern.pattern.len(), 4);
    assert_eq!(pattern.pattern[0].as_ref().unwrap().name(), "wall");
    assert!(pattern.pattern[1].is_none());
    assert!(pattern.pattern[2].is_none());
    assert_eq!(pattern.pattern[3].as_ref().unwrap().name(), "wall");
}

#[test]
fn desirable_properties_places_one_connected_room() {
    // one room of bounded size on a nine-by-nine grid: the merged
    // dungeon is fully connected
    let seed = seed_with(9, 9, &["floor", "wall", "door", "entrance", "exit"], 0);
    let mut rng = rng_from_seed(12);
    let blank = DesirableProperties::new(&seed, 1, 5, 2, 0, 50);
    let rolled = blank.initialize(&mut rng);
    assert_eq!(rolled.rooms.len(), 1);
    let d = rolled.generate();
    assert_eq!(d.width, 9);
    assert_eq!(d.height, 9);
    assert_eq!(rooms_are_accessible(&d), 1);
}

#[test]
fn desirable_properties_generate_is_reproducible() {
    let seed = seed_with(11, 11, &["floor", "wall", "door", "entrance", "exit"], 0);
    let mut rng = rng_from_seed(33);
    let rolled = DesirableProperties::new(&seed, 2, 5, 3, 0, 60).initialize(&mut rng);
    let d1 = rolled.generate();
    let d2 = rolled.generate();
    for x in 0..11u32 {
        for y in 0..11u32 {
            let c1 = d1.get_cell(x, y);
            let c2 = d2.get_cell(x, y);
            assert_eq!(
                c1.tile.as_ref().map(|t| t.name()),
                c2.tile.as_ref().map(|t| t.name())
            );
        }
    }
}

#[test]
fn pruning_twice_changes_nothing_more() {
    // a corridor with a dead-end stub: one pass removes the stub, a
    // second pass removes nothing further
    let mut path = CoordSet::new();
    path.insert(1, 1);
    path.insert(2, 1);
    path.insert(3, 1);
    path.insert(1, 2);
    path.insert(1, 3);
    path.insert(3, 2);
    path.insert(3, 3);
    path.insert(2, 3);
    // the stub hangs off the ring
    path.insert(4, 1);
    let connectors: Vec<Connector> = Vec::new();
    let mut maze = Maze { path, region: 0 };
    maze.prune(&connectors);
    let after_once: Vec<(u32, u32)> = (0..maze.path.len()).map(|k| maze.path.get(k)).collect();
    maze.prune(&connectors);
    let after_twice: Vec<(u32, u32)> = (0..maze.path.len()).map(|k| maze.path.get(k)).collect();
    assert_eq!(after_once, after_twice);
    // the ring survives, the stub does not
    assert!(!maze.path.contains(4, 1));
    assert!(maze.path.contains(1, 1));
    assert_eq!(maze.path.len(), 8);
}

#[test]
fn merging_joins_every_region() {
    // two connectors chaining three regions: the merge completes and
    // keeps connectors that join them all
    let mut r01 = pcg_dungeon::coords::RegionSet::new();
    r01.insert(0);
    r01.insert(1);
    let mut r12 = pcg_dungeon::coords::RegionSet::new();
    r12.insert(1);
    r12.insert(2);
    let connectors = vec![Connector::new((2, 1), &r01), Connector::new((4, 1), &r12)];
    let mut rng = rng_from_seed(8);
    let (kept, complete) = Connector::merge(&mut rng, &connectors, 3);
    assert!(complete);
    assert_eq!(kept.len(), 2);
}

#[test]
fn disconnected_regions_do_not_merge() {
    // two separate pairs with no connector between them: merging stops
    // with two classes left
    let mut r01 = pcg_dungeon::coords::RegionSet::new();
    r01.insert(0);
    r01.insert(1);
    let mut r23 = pcg_dungeon::coords::RegionSet::new();
    r23.insert(2);
    r23.insert(3);
    let connectors = vec![Connector::new((2, 1), &r01), Connector::new((9, 9), &r23)];
    let mut rng = rng_from_seed(8);
    let (_kept, complete) = Connector::merge(&mut rng, &connectors, 4);
    assert!(!complete);
}

#[test]
fn connectors_sit_between_regions() {
    // two one-cell mazes two cells apart: the gap between them is a
    // connector joining both regions
    let mut p1 = CoordSet::new();
    p1.insert(1, 1);
    let mut p2 = CoordSet::new();
    p2.insert(3, 1);
    let mazes = vec![Maze { path: p1, region: 0 }, Maze { path: p2, region: 1 }];
    let rooms = Vec::new();
    let found = Connector::find_all(&mazes, &rooms, 9, 9);
    assert!(found
        .iter()
        .any(|c| c.location == (2, 1) && c.regions.contains(0) && c.regions.contains(1)));
}

#[test]
fn mutate_keeps_the_population_shape() {
    let seed = seed_with(10, 8, &["floor", "wall", "door", "entrance", "exit"], 0);
    let mut rng = rng_from_seed(17);
    let mut walls = ListOfWalls::new(&seed, 30, 20).initialize(&mut rng);
    let wall_count = walls.walls.len();
    walls.mutate(&mut rng, 50);
    assert_eq!(walls.walls.len(), wall_count);

    let mapping: Vec<(char, Tile)> = vec![('#', Tile { name: "wall".to_string() })];
    let description = names(&["#.", ".#"]);
    let pattern_a = Pattern::from_config(&mapping, &description, 2, 2);
    let pattern_b = Pattern::from_config(&mapping, &names(&["##", "##"]), 2, 2);
    let mut patterns = WallPatterns::new(&seed, vec![pattern_a, pattern_b], 2, 2)
        .initialize(&mut rng);
    let index_count = patterns.indices.len();
    patterns.mutate(&mut rng, 50);
    assert_eq!(patterns.indices.len(), index_count);
    assert!(patterns.indices.iter().all(|i| *i < 2));
}

#[test]
fn room_geometry_behaves() {
    let a = Room { x: 1, y: 1, w: 3, h: 3, region: 0 };
    let b = Room { x: 5, y: 1, w: 3, h: 3, region: 1 };
    let c = Room { x: 3, y: 3, w: 3, h: 3, region: 2 };
    assert!(!a.intersects(&vec![b]));
    assert!(a.intersects(&vec![c]));
    assert!(a.contains(1, 1) && a.contains(3, 3) && !a.contains(4, 1));
    let border = a.border();
    assert_eq!(border.len(), 12);
    assert!(border.contains(&(1, 1)) && border.contains(&(3, 3)) && border.contains(&(2, 1)));
    assert!(!border.contains(&(2, 2)));
}

#[test]
fn carving_lands_on_the_lattice() {
    let previous = CoordSet::new();
    let rooms: Vec<Room> = Vec::new();
    let mut rng = rng_from_seed(4);
    let maze = Maze::new(&mut rng, &previous, &rooms, 9, 9, 70, 0, 1, 1);
    assert!(maze.path.contains(1, 1));
    for k in 0..maze.path.len() {
        let (x, y) = maze.path.get(k);
        assert!(x < 9 && y < 9);
        let on_lattice = x % 2 == 1 && y % 2 == 1;
        let x_mid = x > 0 && maze.path.contains(x - 1, y) && maze.path.contains(x + 1, y);
        let y_mid = y > 0 && maze.path.contains(x, y - 1) && maze.path.contains(x, y + 1);
        assert!(on_lattice || x_mid || y_mid);
    }
}
