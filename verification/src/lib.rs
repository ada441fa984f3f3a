//! Random selection of theme songs from a show catalog.
//!
//! Given a catalog mapping show identifiers to shows (each carrying up to
//! three lists of theme songs) and a candidate list of identifiers, the
//! library draws a bounded number of distinct (theme, show) pairs at random.
//! The sampling engine guarantees termination, never picks the same show
//! twice, and degrades gracefully when the request cannot be met.

pub mod config;
pub mod sampling;
pub mod show;

pub use config::exit_failure;
pub use config::plan_run;
pub use config::pos_int_validate;
pub use config::OutputMode;
pub use config::PlanError;
pub use sampling::distinct_count;
pub use sampling::sample;
pub use sampling::DrawRow;
pub use show::aggregate;
pub use show::classify;
pub use show::smart_append;
pub use show::Show;
pub use show::ThemeKind;
