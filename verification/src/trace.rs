//! Labelled log lines.

pub mod base;
pub mod string;
