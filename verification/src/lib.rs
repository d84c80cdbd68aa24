//! Core of a chat-service statistics and moderation bot: a single-flight job
//! lock, a shared progress counter, per-source message scanning, an
//! order-independent aggregator, leaderboard rankings, and a time-windowed
//! vote-to-mute state machine.

pub mod config;
pub mod joblock;
pub mod leaderboard;
pub mod progress;
pub mod scan;
pub mod stats;
pub mod sums;
pub mod votes;
