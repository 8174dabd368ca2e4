//! The engine that replays the feed and settles contestants' routes.
pub mod contestant;
pub mod evaluate;
pub mod evaluate_laws;
pub mod loop_laws;
pub mod route_laws;
pub mod run_laws;
pub mod runloop;
pub mod stats;
pub mod stats_laws;
