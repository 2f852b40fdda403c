//! The state of a game: power, players, teams, and their history.

pub mod active;
pub mod builder;
pub mod name_set;
pub mod players;
pub mod power;
pub mod teams;
pub mod with_history;
