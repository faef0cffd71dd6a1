//! Shortest visiting order over a set of named star systems, with the text
//! helpers, progress bookkeeping and response parsing around it.

pub mod config;
pub mod text;
pub mod trace;
pub mod system;
pub mod route;
pub mod progress;
pub mod request;
