//! A verified core of an iCalendar (RFC 5545) toolkit: line folding and unfolding, property
//! parsing, calendar dates, events and time-zone resolution.

pub mod objects;
pub mod parser;
pub mod text;
pub mod comps;
pub mod api;
pub mod pages;
pub mod state;
pub mod locale;
