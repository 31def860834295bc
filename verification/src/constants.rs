//! Tuning constants of the memory engine.
//!
//! Ratios and scores are fixed-point micro-units: `SCALE` micro-units are 1.0.

use vstd::prelude::*;

verus! {

/// Fixed-point scale: this many micro-units equal 1.0.
pub const SCALE: u64 = 1_000_000;

/// Number of recent active days considered by the frequency computation.
pub const FREQUENCY_WINDOW_DAYS: u32 = 30;

/// Per-active-day retention factor for the recency score, in micro-units.
/// One idle active day multiplies the recency score by this factor.
pub const RECENCY_DAY_FACTOR: u64 = 951_229;

/// Per-day retention factor for importance decay, in micro-units (0.9).
pub const IMPORTANCE_DECAY_FACTOR: u64 = 900_000;

/// Maximum number of daily access count entries kept per insight.
pub const MAX_DAILY_ACCESS_ENTRIES: usize = 90;

/// Importance multiplier for an upvote, in micro-units (1.5).
pub const UPVOTE_MULTIPLIER: u64 = 1_500_000;

/// Importance multiplier for a downvote, in micro-units (0.5).
pub const DOWNVOTE_MULTIPLIER: u64 = 500_000;

/// Weight of the recency score in the composite relevance, in micro-units.
pub const RELEVANCE_WEIGHT_RECENCY: u64 = 300_000;

/// Weight of the normalized frequency in the composite relevance, in micro-units.
pub const RELEVANCE_WEIGHT_FREQUENCY: u64 = 200_000;

/// Weight of the decayed importance in the composite relevance, in micro-units.
pub const RELEVANCE_WEIGHT_IMPORTANCE: u64 = 350_000;

/// Weight of the situation match in the composite relevance, in micro-units.
pub const RELEVANCE_WEIGHT_CONTEXT: u64 = 150_000;

/// Maximum reasonable frequency (accesses per active day) used to normalize
/// the frequency score, in micro-units (10.0).
pub const MAX_REASONABLE_FREQUENCY: u64 = 10_000_000;

/// Minimum content relevance for a candidate to pass the semantic gate,
/// in micro-units.
pub const CONTENT_MATCH_THRESHOLD: i64 = 400_000;

/// Minimum situation relevance for a candidate to pass the situational gate,
/// in micro-units.
pub const SITUATION_MATCH_THRESHOLD: u64 = 400_000;

/// Default lower bound of the relevance range filter, in micro-units (0.1).
pub const DEFAULT_MIN_RELEVANCE: i64 = 100_000;

/// Default page size of a search.
pub const DEFAULT_SEARCH_COUNT: usize = 10;

/// Milliseconds in one calendar day.
pub const MILLIS_PER_DAY: i64 = 86_400_000;

} // verus!
