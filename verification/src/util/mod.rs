//! Small general-purpose helpers.

pub mod natural;
