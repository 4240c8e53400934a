//! Verified solvers for a collection of grid, parsing and counting puzzles.
//!
//! The centrepiece is the search for the cheapest walk across a grid of
//! blocks when the walker may neither go straight for too long nor turn too
//! soon: [`crucible`] holds its model, [`crucible_search`] the search,
//! [`crucible_laws`] what follows from the model alone. Every executable
//! function carries a contract that is proved against a mathematical model of
//! its data, and no contract is taken on trust.

// What the modules share.
pub mod counting;
pub mod glyphs;
pub mod grid;
pub mod min_queue;
pub mod reach;
pub mod text;

// The constrained walk.
pub mod crucible;
pub mod crucible_laws;
pub mod crucible_search;
pub mod heat_map;
pub mod search_invariant;
pub mod search_steps;
pub mod state_space;

// The other solvers.
pub mod almanac;
pub mod beams;
pub mod calibration;
pub mod camel_cards;
pub mod camel_order;
pub mod cubes;
pub mod galaxies;
pub mod lagoon;
pub mod lens_hash;
pub mod mirrors;
pub mod network;
pub mod oasis;
pub mod pipes;
pub mod platform;
pub mod races;
pub mod schematic;
pub mod scratchcards;
pub mod springs;
