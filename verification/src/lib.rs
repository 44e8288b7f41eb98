//! Demultiplexing and channel routing for multistream Opus packets.
//!
//! A multistream packet carries one Opus packet per elementary stream. This
//! crate splits such a packet into the packets of its streams, and routes what
//! the elementary decoders produce to the output channels. It contains no codec.

pub mod frame_size;
pub mod multistream;

pub use frame_size::parse_frame_size;
