use vstd::prelude::*;

verus! {

/// Every way in which sending or receiving a message can be refused.
#[derive(Debug, Clone, Copy, PartialEq, Eq, Structural)]
pub enum ProtocolError {
    /// A header started with a magic number other than the expected one.
    InvalidMagic { found: u16, expected: u16 },
    /// A header announced a payload longer than a fragment may carry.
    PayloadTooLarge { len: u16 },
    /// A header announced more fragments than the configuration allows.
    TooManyFragments { announced: u16, limit: u16 },
    /// The assembler of a message outlived the assembler timeout.
    AssemblyTimeout { message_id: u64 },
    /// Reassembly was asked for before every fragment had arrived.
    Incomplete { message_id: u64, received: usize, total: u16 },
    /// A message (reassembled, or about to be sent) exceeds the size limit.
    MessageTooLarge { size: usize, max_size: usize },
    /// A message would need more fragments than the configuration allows.
    FragmentLimit { needed: usize, limit: u16 },
    /// The zlib encoder reported a failure.
    CompressionFailed,
    /// The zlib stream of a compressed message could not be decoded.
    DecompressionFailed,
    /// A reassembled message is shorter than its 4-byte CRC prefix.
    MissingCrc,
    /// The CRC carried with a message does not match its contents.
    CrcMismatch { carried: u32, computed: u32 },
}

} // verus!
