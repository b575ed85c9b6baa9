//! Market-data analysis for a prediction-market venue: paginated fetching
//! decisions, position reconstruction from trade streams, resolution
//! matching, performance aggregation and anomaly classification.
//!
//! Money, share counts and prices are fixed-point integers in millionths
//! (see [`decimal::UNIT`]).

pub mod classifier;
pub mod decimal;
pub mod models;
pub mod paginator;
pub mod performance;
pub mod positions;
pub mod resolution;
pub mod scanner;
pub mod sequential;
pub mod wallet_analyzer;
pub mod wallet_scanner;
