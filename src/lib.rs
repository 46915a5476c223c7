//! A destructible-terrain simulation on an integer grid: blocks heat up under
//! laser fire, large blocks break into medium rubble, rubble with nothing above
//! it is flagged unsupported and falls one unit per tick until it lands.
//!
//! `world` holds the registry of blocks and lasers. One tick
//! (`pipeline::tick`) runs the stages in order: `damage`, `fragment`,
//! `support`, `settle`. Collision queries go through the uniform grid of
//! `grid`. `map` places the starting blocks and `actor` moves the player's gun.

pub mod geometry;
pub mod grid;
pub mod despawned;
pub mod block;
pub mod world;
pub mod damage;
pub mod fragment;
pub mod support;
pub mod settle;
pub mod pipeline;
pub mod map;
pub mod actor;
