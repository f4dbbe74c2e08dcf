//! Evaluation of Sigma detection and correlation rules against structured
//! log events.
pub mod collection;
pub mod correlation;
pub mod detection;
pub mod event;
pub mod graph;
pub mod rule;
pub mod text;
pub mod value;
pub mod yaml;

pub use collection::SigmaCollection;
pub use correlation::state::MemBackend;
pub use event::Event;
pub use rule::SigmaRule;
