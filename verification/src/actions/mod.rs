//! What players can do to one another.

pub mod attack;
pub mod resolution;
