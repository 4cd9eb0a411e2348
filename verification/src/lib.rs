//! An evolution playground: simple agents steered by small feed-forward
//! networks roam a toroidal world, eat, and are bred by a genetic algorithm.
//!
//! Every quantity is fixed-point: an `i64` counting millionths of a unit
//! (see [`fixed`]), so that the whole pipeline is deterministic and every
//! step of it carries a proved contract.

pub mod fixed;
pub mod rng;
pub mod network;
pub mod genetics;
pub mod trig;
pub mod world;
pub mod sim;
