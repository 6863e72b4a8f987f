//! Locales: how dates and ordinals are written in a language.

pub mod it;
