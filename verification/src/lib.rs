pub mod rng;
pub mod utils;
