//! Yield-farm sampling: reconciles a position snapshot with an externally
//! resolved token price into rows of an append-only CSV time series.

pub mod belt;
pub mod decimal;
pub mod digits;
pub mod model;
pub mod reconcile;
pub mod scheduler;
pub mod sink;
pub mod timestamp;
