//! A consistent-hashing ring: named nodes are placed on a circular 32-bit
//! hash space through a fixed number of virtual points each, and keys are
//! routed to the node that owns their successor point.

pub mod hashing;
pub mod order;
pub mod ring;

pub use ring::Consistant;
