//! Small networking utilities: a fixed-capacity byte ring and a fair-queueing
//! scheduler that multiplexes items grouped by flow key.

pub mod circular_buffer;
mod clock;
pub mod fair_queue;
pub mod guarantees;
pub mod model;
pub mod utun;
