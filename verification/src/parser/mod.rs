//! Parser utilities for RFC 5545.
//!
//! The lowest level provides the [`LineReader`] and [`LineWriter`] that let their users work with
//! logical lines, while reading or producing physical lines as the format expects (at most 75
//! bytes per line). On top of them, a line is turned into a [`Property`] and back.

pub mod error;
pub mod line;
pub mod prop;
pub mod roundtrip;

pub use self::error::{LineResultExt, ParseError, ParseErrorType};
pub use self::line::{LineReader, LineWriter};
pub use self::prop::{Parameter, Property};
