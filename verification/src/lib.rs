//! A maze generator on a concentric-ring grid. Cell positions are exact
//! rational angles on rings of increasing subdivision; a randomized
//! carving walk claims every cell exactly once and grows the wall list,
//! merging adjacent same-kind segments into minimal arcs and lines.

pub mod angle;
pub mod circular_grid;
pub mod components;
pub mod counting;
pub mod maze;
pub mod maze_builder;
