//! How an occurrence of an event or TODO is shown.

use vstd::prelude::*;

verus! {

/// Where an occurrence is shown, which decides how it is rendered.
#[derive(Copy, Clone, Debug, PartialEq, Eq)]
pub enum OccurrenceMode {
    /// Used in the monthly grid and weekly all-day area.
    Block,
    /// Used in the weekly timed area.
    Timed,
    /// Used in the sidebar next events/tasks.
    Sidebar,
}

} // verus!
