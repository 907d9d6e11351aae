//! Self-play and policy-rollout engine for sequential decision problems.
//!
//! The crate is generic over the number type (`Scalar`), the simulation
//! (`Env`) and the inference function (`Policy`). Every function is verified
//! to be free of panics for every implementation of these three capabilities.

pub mod az;
pub mod collector;
pub mod columns;
pub mod env;
pub mod evaluate;
pub mod policy;
pub mod ppo;
pub mod puzzle;
pub mod scalar;
pub mod search;
pub mod solve;
pub mod tree;
