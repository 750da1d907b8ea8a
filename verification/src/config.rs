use vstd::prelude::*;

use crate::compress::default_compression_level;

verus! {

pub const DEFAULT_MAX_TOTAL_FRAGMENTS: u16 = 1024;

pub const DEFAULT_MAX_MESSAGE_SIZE: usize = 64 * 1024 * 1024;

pub const DEFAULT_ASSEMBLER_TIMEOUT_NS: u64 = 30_000_000_000;

pub const DEFAULT_MAX_ASSEMBLERS: usize = 1000;

pub const DEFAULT_READ_TIMEOUT_NS: u64 = 60_000_000_000;

pub const DEFAULT_COMPLETED_TIMEOUT_NS: u64 = 60_000_000_000;

pub const DEFAULT_MAX_COMPLETED: usize = 1000;

pub const DEFAULT_KEEPALIVE_NS: u64 = 30_000_000_000;

/// Tuning of a protocol endpoint. Durations are in nanoseconds, the
/// resolution of the monotonic clock the caller reads.
#[derive(Debug, Clone, Copy, PartialEq, Eq, Structural)]
pub struct ProtocolConfig {
    /// zlib level used when a message is sent compressed (0 to 9; 10 is
    /// the slowest level the encoder knows).
    pub compression_level: u32,
    /// How long an incomplete message may wait for its fragments.
    pub assembler_timeout: u64,
    /// Most fragments a message may be cut into.
    pub max_total_fragments: u16,
    /// Largest message (before the CRC prefix) that may be sent or received.
    pub max_message_size: usize,
    /// Most incomplete messages held at once before the oldest are dropped.
    pub max_assemblers: usize,
    /// How long a single read from the stream may take.
    pub read_timeout: u64,
    /// How long the id of a delivered message is remembered.
    pub completed_timeout: u64,
    /// Most delivered ids remembered before the oldest are forgotten.
    pub max_completed: usize,
    /// TCP keep-alive interval, or `None` to leave keep-alive off.
    pub keepalive_interval: Option<u64>,
}

impl ProtocolConfig {
    /// The configuration that `default` returns, with the given zlib level.
    pub open spec fn spec_default(level: u32) -> ProtocolConfig {
        ProtocolConfig {
            compression_level: level,
            assembler_timeout: DEFAULT_ASSEMBLER_TIMEOUT_NS,
            max_total_fragments: DEFAULT_MAX_TOTAL_FRAGMENTS,
            max_message_size: DEFAULT_MAX_MESSAGE_SIZE,
            max_assemblers: DEFAULT_MAX_ASSEMBLERS,
            read_timeout: DEFAULT_READ_TIMEOUT_NS,
            completed_timeout: DEFAULT_COMPLETED_TIMEOUT_NS,
            max_completed: DEFAULT_MAX_COMPLETED,
            keepalive_interval: Some(DEFAULT_KEEPALIVE_NS),
        }
    }

    /// The largest reassembled payload accepted: the message limit plus the
    /// four CRC bytes, capped at `usize::MAX`.
    pub open spec fn payload_limit(self) -> usize {
        if self.max_message_size <= usize::MAX - 4 {
            (self.max_message_size + 4) as usize
        } else {
            usize::MAX
        }
    }

    /// Computes `payload_limit`.
    pub fn payload_limit_exec(&self) -> (limit: usize)
        ensures
            limit == self.payload_limit(),
    {
        if self.max_message_size <= usize::MAX - 4 {
            self.max_message_size + 4
        } else {
            usize::MAX
        }
    }
}

impl Default for ProtocolConfig {
    /// zlib's default level (6), 30 s assembler timeout, 1024 fragments,
    /// 64 MiB messages, 1000 assemblers, 60 s read timeout, 60 s memory of
    /// delivered ids, 1000 such ids, 30 s keep-alive.
    fn default() -> (config: Self)
        ensures
            config == Self::spec_default(6),
    {
        ProtocolConfig {
            compression_level: default_compression_level(),
            assembler_timeout: DEFAULT_ASSEMBLER_TIMEOUT_NS,
            max_total_fragments: DEFAULT_MAX_TOTAL_FRAGMENTS,
            max_message_size: DEFAULT_MAX_MESSAGE_SIZE,
            max_assemblers: DEFAULT_MAX_ASSEMBLERS,
            read_timeout: DEFAULT_READ_TIMEOUT_NS,
            completed_timeout: DEFAULT_COMPLETED_TIMEOUT_NS,
            max_completed: DEFAULT_MAX_COMPLETED,
            keepalive_interval: Some(DEFAULT_KEEPALIVE_NS),
        }
    }
}

} // verus!
