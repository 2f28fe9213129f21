//! Verified core of a real-time perception pipeline: frame preprocessing,
//! detection decode with non-max suppression, a bounded FIFO frame channel,
//! and per-side throughput monitoring.
//!
//! Scores, confidence thresholds and IoU thresholds are carried as integers
//! in thousandths (per-mille), so that every computation in this crate is
//! exact integer arithmetic.

pub mod channel;
pub mod config;
pub mod errors;
pub mod frame;
pub mod nms;
pub mod rate;
pub mod round;
pub mod yolo;
