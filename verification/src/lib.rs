//! Long-term memory engine for AI-authored insights.
//!
//! Insights are short facts with situational tags, an importance rating, and
//! an access history over logical days. The engine scores them by a blend of
//! recency, access frequency, decayed importance, and situational match, and
//! persists each insight as one JSON record.
//!
//! All scores and ratings are fixed-point values in micro-units: one million
//! micro-units equal 1.0.

pub mod codec;
pub mod constants;
pub mod dates;
pub mod fixed;
pub mod models;
pub mod project_detection;
pub mod search;
pub mod storage;
pub mod sys;
