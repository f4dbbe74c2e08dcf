//! Correlation rules: rules over the matches of other rules, counted by
//! group within a window of time.
pub mod rule;
pub mod state;
pub mod timespan;

pub use rule::CorrelationRule;
