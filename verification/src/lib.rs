//! Installer for the artifice network, usable as a plain bounded-concurrency
//! task scheduler: tasks are registered on an [`Installer`] (or directly on a
//! [`TaskSchedule`]) and drained by a one-shot run that launches at most
//! `thread_count` of them at once against a shared installation target.

/// The primary functionality of this crate: tasks, the dispatcher, and the
/// installer facade.
pub mod installation;
/// Byte-level archive compression helpers used by setup steps.
pub mod archive;

pub use installation::Installer;
pub use installation::Task;
pub use installation::TaskSchedule;
