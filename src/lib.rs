//! A bounded selection heap: keeps the `limit` smallest values of a stream.
pub mod order;
mod heap_array;
pub mod limited;

pub use limited::LimitedBinaryHeap;
pub mod laws;
