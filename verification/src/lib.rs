//! A sliding-window invocation counter over a fixed ring of time slots.

pub mod counter;
pub mod grid;
pub mod laws;
pub mod ring;
pub mod shared;
pub mod slot;

pub use counter::InvocationCounter;
pub use shared::SharedInvocationCounter;
