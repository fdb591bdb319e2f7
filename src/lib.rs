//! Shortest move sequences over the configurations of a row of units.
//!
//! Each unit holds a state in `[0, M)`; a move strikes a fixed set of units and
//! advances each of them by one, modulo `M`. The library enumerates the
//! configuration space in odometer order, links it into a move-labelled graph
//! and searches that graph breadth first.
pub mod graph;
pub mod units;

pub use graph::{capped_power, is_end, last_link, last_match, GraphError, Graphics, IdxNode};
pub use units::{occurrences, odometer_iter, odometer_next, moves_to, first_move, states_in_range, table_covers, State, Units};
