//! Coordination core of a live-media streaming server.
//!
//! A central registry (the stream hub) decouples media producers from media
//! consumers: producers publish frames for a stream key, consumers subscribe
//! to keys, and the hub fans every frame out to the current subscribers of
//! its key without letting a slow consumer stall the producer or any other
//! consumer.

pub mod frame;
pub mod hub;
pub mod laws;
pub mod service;
