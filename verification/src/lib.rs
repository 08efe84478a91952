pub mod aggregation;
pub mod cli;
pub mod config;
pub mod decimal;
pub mod punch;
pub mod record;
pub mod summary;
pub mod window;
