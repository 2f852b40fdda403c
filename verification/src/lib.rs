//! A turn-based, team-against-team combat game.
//!
//! Players belong to teams and hold power in three colours. An attack is
//! declared in stages, resolved against the current state of the teams, and
//! recorded in a history that can be stepped back.

pub mod actions;
pub mod gamestate;
mod random;
pub mod text;
