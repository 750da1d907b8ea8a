//! A framing layer for messages carried over a byte stream.
//!
//! A message is prefixed with the CRC-32 of its bytes, optionally
//! zlib-compressed, and cut into fragments of at most
//! [`MAX_PAYLOAD_SIZE`] bytes. Each fragment travels behind a fixed
//! 17-byte big-endian [`FragmentHeader`]. The receiving side collects
//! fragments per message id, reassembles, decompresses and checks the
//! CRC. The library holds the pure logic; reading and writing the
//! stream belongs to the caller.
pub mod assembler;
pub mod checksum;
pub mod compress;
pub mod config;
pub mod error;
mod eviction;
pub mod fragment;
pub mod header;
pub mod laws;
pub mod message;
pub mod random;
pub mod state;

pub use assembler::MessageAssembler;
pub use config::ProtocolConfig;
pub use error::ProtocolError;
pub use random::generate_magic;
pub use state::ProtocolState;
pub use header::{FragmentHeader, FLAG_COMPRESSED, HEADER_SIZE, MAX_PACKET_SIZE, MAX_PAYLOAD_SIZE};
