//! A dual-source block-arrival correlation and latency statistics engine.
//!
//! Two independently timed feeds (for example a push stream and a polling
//! client) each observe newly produced blocks.  This library correlates the
//! two observations of the same block, decides which feed saw it first, and
//! aggregates latency statistics over the run.  All network and console work
//! lives outside the library; the engine works on plain timestamped values.

pub mod aggregator;
pub mod blocks;
pub mod correlator;
pub mod engine;
pub mod event;
pub mod resolver;
pub mod text;
pub mod txmon;
