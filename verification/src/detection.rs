//! Detection rules: named selections of field tests, joined by a condition.
pub mod condition;
pub mod detection;
pub mod filter;
pub mod rule;
pub mod selection;

pub use rule::DetectionRule;
