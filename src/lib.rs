//! Decision engine and turn simulation for a territorial conquest game.
//!
//! The world is an arena of cities addressed by index, connections are index
//! pairs, and every branch of the search owns a plain copy of the state.
//! `world` holds the data model, `scoring` the heuristic evaluation,
//! `combat` the dice, `moves` the actions, `search` the bounded look-ahead,
//! `turn` the phases of play and `geography` the building of the map.

pub mod ai;
pub mod combat;
pub mod geography;
pub mod moves;
mod random;
pub mod scoring;
pub mod search;
pub mod turn;
pub mod world;
