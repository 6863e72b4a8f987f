//! The JSON API of the web interface: the parts of its handlers that decide what they answer.

pub mod dstwarn;
