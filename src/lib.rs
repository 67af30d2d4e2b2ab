//! Builder-side transaction scoring and selection, and the relay's blind
//! auction state machine.

pub mod error;
pub mod greedy;
pub mod price;
pub mod relay;
