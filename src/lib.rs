pub mod collect;
pub mod config;
pub mod metrics;
pub mod monitor;
pub mod report;
pub mod text;
