//! Seeded generation of the market and of its price feed.
pub mod config;
pub mod count_laws;
pub mod dedupe;
pub mod draw_laws;
pub mod emission;
pub mod feed_laws;
pub mod feed_stats;
pub mod generate_feed;
pub mod generate_market;
pub mod limits;
pub mod market_laws;
pub mod math;
pub mod price_laws;
pub mod rng;
pub mod schedule;
pub mod shape_laws;
pub mod tick_laws;
pub mod volumes;
