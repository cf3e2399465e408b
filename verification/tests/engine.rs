//! The evolutionary engine, run end to end.

use pcg_dungeon::celloption::{CellOptions, Item, Occupant, Tile};
use pcg_dungeon::evaluation::EvalKind;
use pcg_dungeon::genotype::Genotype;
use pcg_dungeon::mu_lambda::{score, MuLambda};
use pcg_dungeon::phenotype::Seed;
use pcg_dungeon::random_seed::RandomSeed;
use pcg_dungeon::rng::rng_from_seed;

fn names(list: &[&str]) -> Vec<String> {
    list.iter().map(|s| s.to_string()).collect()
}

fn test_seed() -> Seed {
    let tiles: CellOptions<Tile> =
        CellOptions::new(&names(&["floor", "wall", "door", "entrance", "exit"]));
    let items: CellOptions<Item> = CellOptions::new(&names(&["key"]));
    let occupants: CellOptions<Occupant> = CellOptions::new(&names(&["slime"]));
    Seed::new(8, 8, tiles, items, occupants, 10)
}

#[test]
fn engine_returns_a_ranked_population() {
    let seed = test_seed();
    let template = Genotype::RandomSeed(RandomSeed::new(&seed));
    let funcs = vec![EvalKind::HasEntranceExit, EvalKind::Check1x1Rooms];
    let weights = vec![1i64, -1i64];
    let mut engine = MuLambda::new(1, 3, 2, 3, 25, template, funcs, weights);
    let mut rng = rng_from_seed(99);
    let result = engine.run(&mut rng);
    assert_eq!(result.len(), 5);
    for k in 1..result.len() {
        assert!(result[k - 1].1.fitness >= result[k].1.fitness);
    }
    for pair in &result {
        assert_eq!(pair.1.iteration, 2);
    }
}

#[test]
fn score_stamps_the_iteration() {
    let seed = test_seed();
    let template = Genotype::RandomSeed(RandomSeed::new(&seed));
    let mut rng = rng_from_seed(5);
    let rolled = template.initialize(&mut rng);
    let evals = vec![(EvalKind::RoomsAreAccessible, 10i64)];
    let s = score(&rolled, &evals, 7);
    assert_eq!(s.iteration, 7);
    // a grid with at least one floor cell scores at least ten when it
    // is connected, and never below zero
    assert!(s.fitness >= 0);
}
