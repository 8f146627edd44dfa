//! Round-resolution engine for a two-player, asymmetric, turn-based
//! territory-capture game: a resistance side claims grid cells while a
//! suppression side designates zones that block claims.
//!
//! The crate covers the coordinate/adjacency model, the per-side action
//! histories, and the round engine that turns a pair of submitted actions
//! into captures, promotions and timer bookkeeping.

pub mod actors;
pub mod round_manager;
pub mod tilemap;
