//! Road-network routing on a contraction hierarchy.
//!
//! - `ch`: the leveled graph in compact adjacency form (offset table plus
//!   in- and out-half-edge arrays).
//! - `search`: the bidirectional level-restricted distance query and its
//!   reusable session, with the laws the distance obeys.
//! - `frontier`: the min-heap the search pops from.
//! - `plain`: a graph without levels over whole edges.
//! - `load`: the text formats the graphs are read from.
//! - `movies`: movie records, an inverted word index and its queries.
pub mod ch;
pub mod frontier;
pub mod load;
pub mod movies;
pub mod plain;
pub mod search;
