pub mod connectivity;
pub mod dungeon;
pub mod geometry;
pub mod rng;
pub mod stage;
