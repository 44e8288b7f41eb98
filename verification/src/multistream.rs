//! Multistream Opus decoding, mapping family 1.
//!
//! Every elementary stream is a plain Opus stream of one or two channels. This
//! module demultiplexes and routes, and leaves the decoding of the streams to
//! elementary decoders outside: [`PacketPass`] says what each of them has to
//! decode and takes what it reports.

pub mod byte_laws;
pub mod decode_laws;
pub mod decoder;
pub mod demux;
pub mod framing;
pub mod framing_laws;
pub mod pass;
pub mod routing;
pub mod split;
pub mod table;

pub use decoder::{ElementaryStream, MultistreamDecoder};
pub use pass::{PacketPass, StreamRequest};
pub use routing::StreamReport;
pub use split::split_self_delimited;
pub use table::{ChannelMappingTable, SILENT_CHANNEL};
