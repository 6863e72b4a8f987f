//! The persistent state of the application: the parts of its logic that decide what changes.

pub mod migration;
pub mod tomldoc;
