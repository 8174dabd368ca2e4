//! The verified core of a trading contest: market and feed generation, the wire
//! protocol between the simulation server and its contestants, and the engine
//! that evaluates their routes.
pub mod boot;
pub mod bot;
pub mod cores;
pub mod engine;
pub mod generation;
pub mod net;
pub mod protocol;
pub mod text;
