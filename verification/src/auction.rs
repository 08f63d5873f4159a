//! The batch-clearing algorithm, from the order lists to the trade report.

pub mod batch;
pub mod clearing;
pub mod crossing;
pub mod curve;
pub mod guarantees;
pub mod order;
pub mod priority;

pub use self::batch::{calculate_batch, BatchReport};
pub use self::order::{Order, Qty, Segment, Side};
