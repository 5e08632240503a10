//! A persistent, topic-oriented publish/subscribe broker core.
//!
//! Messages are tagged with a topic and a broker-assigned nonce, stored in an
//! embedded key/value engine under four secondary indices, and handed to
//! subscribers in nonce order from any starting offset.

pub mod clock;
pub mod codec;
pub mod consumer;
pub mod envelope;
pub mod kv;
pub mod laws;
pub mod listing;
pub mod partition;
pub mod sequencer;
pub mod session;
pub mod storage;
