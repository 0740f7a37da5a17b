//! Balanced team drafting: a pool of candidate players is placed into teams
//! by role, by seeding tier and by skill rank.

pub mod arith;
pub mod census;
pub mod players;
pub mod roles;
pub mod search;
pub mod teams;
