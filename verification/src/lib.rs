//! Concurrency and resource-management utilities for a chat-bot application:
//! a bounded-concurrency task scheduler, a sliding-window rate limiter and a
//! time-to-live cache, together with the configuration and message tables
//! that the surrounding application feeds them.

pub mod cache;
pub mod config;
pub mod errors;
pub mod guild_data;
pub mod kvmap;
pub mod lang;
pub mod rate_limiter;
pub mod security;
pub mod task_manager;
pub mod text;
pub mod utils;

pub use errors::TaskError;
