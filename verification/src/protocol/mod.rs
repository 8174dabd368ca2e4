//! The messages that the simulation and its contestants exchange.
pub mod feed;
pub mod layout_laws;
pub mod market;
pub mod submission;
pub mod wire;
