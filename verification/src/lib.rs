//! Verified core of a telemetry relay for the PICTURE-C/D instruments: the
//! framing of the instrument's byte stream into packets, the batching of
//! received datagrams, the data-rate counter and the packet header fields.
pub mod frame;
pub mod utils;
pub mod batch;
pub mod header;
