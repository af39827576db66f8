//! Optimal paragraph line breaking.
//!
//! A sequence of layout atoms (words, elastic inter-word glue, substitutable
//! variants) is partitioned into output lines of configured target widths so
//! that the summed "badness" of the lines is as small as the memoized
//! breakpoint search can make it.  All geometry is carried in integer units;
//! the cost formula and the search are specified by spec functions against
//! which every executable function is verified.

pub mod api;
pub mod cost;
pub mod laws;
pub mod line;
pub mod node;
pub mod optimal;
pub mod search;

pub use api::nb_add_node;
pub use api::nb_finalize;
pub use api::nb_new;
pub use line::BreakOptions;
pub use line::Line;
pub use line::Solution;
pub use line::INFINITE_BADNESS;
pub use node::Node;
pub use node::MAX_DIMEN;
pub use node::MAX_NODES;
pub use search::Linebreaker;
