//! Pages of the web interface: the parts of their logic that decide what they show.

pub mod events;
pub mod monthly;
