//! A falling-sand simulation on a two-dimensional grid.
//!
//! The grid is kept twice: as it was last synchronised, which is what every
//! decision of a tick reads and what painting shows, and as it will be next,
//! which is what every move writes. The cells written since the last painting
//! are remembered, so that a redraw touches only those.

pub mod world;
