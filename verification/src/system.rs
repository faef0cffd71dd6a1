//! Star systems, the distances between them, and the search for the
//! shortest visiting order.

pub mod holder;
pub mod pair;
pub mod shortest;
pub mod system;
pub mod search;
