use vstd::prelude::*;

pub mod vec2;
pub mod entity_type;
pub mod rect;
pub mod range;
pub mod grid;
pub mod pairs;
pub mod map;
pub mod path;
pub mod search;
pub mod entity_simulator;
pub mod build_simulator;
pub mod build_planner;
pub mod entity_planner;
pub mod tasks;
pub mod groups;
pub mod roles;
pub mod stats;
pub mod config;
pub mod bot;
pub mod debug;
pub mod world;

verus! {

} // verus!
