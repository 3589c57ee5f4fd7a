//! ClubBench: the deterministic, headless football-management benchmark
//! environment, its decision cadence, its baseline agents and its scoring
//! helpers, with the decision logic verified.

pub mod agents;
pub mod env;
pub mod episode;
pub mod episode_agents;
pub mod model;
pub mod rng;
pub mod run;
pub mod score;
pub mod text;
pub mod world;
