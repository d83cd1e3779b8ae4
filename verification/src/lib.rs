//! Finds the moments of a recording that are worth clipping.
//!
//! A transcript is a sequence of timestamped units. Candidate windows come
//! from literal keywords or from a semantic index over the units, and
//! overlapping windows are merged into the final, disjoint clip list.
//!
//! All times are whole ticks of ten milliseconds, the resolution at which the
//! speech recogniser reports them.

pub mod assemble;
pub mod cache;
pub mod config;
pub mod fetch;
pub mod ffmpeg;
pub mod keywords;
pub mod order;
pub mod paths;
pub mod text;
pub mod transcript;
pub mod units;
pub mod vec_db;

pub use crate::cache::Cache;
pub use crate::config::Config;
pub use crate::units::{Clip, Timestamp};
pub use crate::vec_db::VectorDB;
