//! Shared infrastructure: configuration, the error type and request spacing.

pub mod config;
pub mod error;
pub mod rate_limit;

pub use config::{AppConfig, MangaDexConfig};
pub use error::{AppError, Result};
pub use rate_limit::RateWindow;
