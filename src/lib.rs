//! A work-stealing double-ended queue in the style of Chase and Lev, with
//! one-shot ownership cells as its slots.
//!
//! The owner pushes and pops at the bottom; stealers take from the top. The
//! indices `top` and `bottom` only ever grow (but for the owner's speculative
//! decrement in `pop`), and a live index is mapped onto a growable circular
//! buffer of seats. The laws that any sequence of calls obeys are stated and
//! proved in `laws`.
mod deque;
pub mod laws;
mod seat;
mod swap;

pub use deque::{popped, stolen, LFQueue};
pub use seat::Seat;
pub use swap::{SwapQueue, SWAP_QUEUE_CAPACITY};
