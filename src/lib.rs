//! A simulated mark-and-sweep garbage collector over a fixed-capacity
//! virtual heap of cells linked by index references.
pub mod arbitrary;
pub mod cell;
pub mod command;
pub mod refs;
pub mod graph;
pub mod heap;
pub mod laws;
