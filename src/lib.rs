//! Prioritisation and batching of attachment downloads from unreliable peers.
pub mod attachment;
pub mod batch;
pub mod context;
pub mod hash;
pub mod queue;
pub mod reliability;
pub mod requests;
pub mod round;
