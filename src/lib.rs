//! A fake memory machine that replays allocation and free events and checks
//! that they describe a memory-safe execution.
pub mod laws;
pub mod machine;
mod pointer;
mod region;
pub mod text;
mod violation;

pub use machine::{Event, Machine};
pub use pointer::Pointer;
pub use region::Region;
pub use violation::Violation;
