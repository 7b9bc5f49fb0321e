pub mod bracket;
pub mod model;
pub mod prob;
mod rng;
pub mod scoring;
pub mod tournament;
