//! Single-pass directory cleanup: delete the files of one directory whose
//! creation time lies strictly before a cutoff instant.
//!
//! The crate holds the decision logic only.  A caller gathers a snapshot of
//! the directory (does it exist, and for each entry its creation time), asks
//! [`run`] for a deletion plan, and then performs the removals itself.

pub mod config;
pub mod pass;
pub mod time;

pub use config::ConfigError;
pub use config::DeleteConfig;
pub use pass::run;
pub use pass::Entry;
pub use pass::PassPlan;
pub use pass::RunError;
pub use time::Timestamp;
