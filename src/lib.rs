//! Pairwise ranking engine: bounded match histories, dense standings and a
//! weighted pair sampler that feed a Glicko-2 rating update.

pub mod structs;
pub mod trail;
pub mod ranking;
pub mod history;
pub mod sampler;
pub mod battle;
pub mod glicko;
pub mod roster;
