//! The verified core of a game-server death-statistics pipeline: it scans
//! rotated log archives, parses and memoizes attributed death events, and
//! aggregates them into per-account totals, cause-frequency charts and
//! gap-filled daily time series, alongside the pure decision logic of the
//! server's mod lists.

pub mod aggregate;
pub mod cache;
pub mod chart;
pub mod date;
pub mod mods;
pub mod parse;
pub mod scan;
pub mod slots;
pub mod text;
pub mod util;

