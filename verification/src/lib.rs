//! Verified core logic of the city-building game: resources and their
//! storage, the road's forbidden zone, structure and material catalogues,
//! the idea "tree" and its window, population assignment, placed-place
//! bookkeeping and formation, the build tool's state, the navigation grid's
//! settings and walking routes, the month's market gains, the arguments of
//! text commands and the on-disk grid format.
use vstd::prelude::*;

pub mod build_tool;
pub mod city;
pub mod command;
pub mod decimal;
pub mod distribution;
pub mod eorf;
pub mod flood_fill;
pub mod formation;
pub mod idea;
pub mod idea_view;
pub mod idea_window;
pub mod llm_rooms;
pub mod materials;
pub mod month;
pub mod orc;
pub mod pathing;
pub mod place;
pub mod population;
pub mod resource;
pub mod road;
pub mod serialization;
pub mod sparse3d;
pub mod text;

verus! {

} // verus!
