//! Core of a grid-world scavenger simulation: a fixed board of wall and
//! empty cells, consumable items, single-occupant dens, and script-driven
//! agents that move one cell per tick. The host (outside this library)
//! resumes each agent's script once per tick and passes the yielded
//! movement decision in; everything the decision does to the world is
//! verified here.

pub mod geom;
pub mod grid;
pub mod path;
pub mod sim;
pub(crate) mod rng;
