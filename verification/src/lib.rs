//! Procedural dungeon synthesis with an evolutionary search engine.
//!
//! The crate models a grid of cells, catalogs of named tile / item /
//! occupant tags, four interchangeable generation strategies that map a
//! genotype to a concrete dungeon grid, structural fitness evaluators,
//! and a mu+lambda evolutionary loop that drives them.

pub mod cell;
pub mod celloption;
pub mod coords;
pub mod desirable_properties;
pub mod dungeon;
pub mod evaluation;
pub mod genotype;
pub mod list_of_walls;
pub mod mu_lambda;
pub mod phenotype;
pub mod random_seed;
pub mod rng;
pub mod sprite;
pub mod statistics;
pub mod util;
pub mod wall_patterns;
