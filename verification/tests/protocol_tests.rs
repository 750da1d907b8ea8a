use protocol::assembler::MessageAssembler;
use protocol::config::ProtocolConfig;
use protocol::error::ProtocolError;
use protocol::fragment::{count_fragments, frame_payload};
use protocol::header::{FragmentHeader, FLAG_COMPRESSED, HEADER_SIZE, MAX_PACKET_SIZE, MAX_PAYLOAD_SIZE};
use protocol::message::{check_crc, open_payload, prefix_crc, seal_payload};
use protocol::random::{generate_magic, magic_from_random};
use protocol::state::ProtocolState;

const MAGIC: u16 = 0xabcd;

fn sample_header() -> FragmentHeader {
    FragmentHeader {
        magic: 0x1235,
        flags: FLAG_COMPRESSED,
        message_id: 0x0102_0304_0506_0708,
        fragment_index: 3,
        total_fragments: 0x0100,
        payload_len: 0x3fef,
    }
}

/// Feeds a frame through the receive path of `state`.
fn receive(state: &mut ProtocolState, frame: &[u8], now: u64) -> Result<Option<Vec<u8>>, ProtocolError> {
    let mut head = [0u8; HEADER_SIZE];
    head.copy_from_slice(&frame[..HEADER_SIZE]);
    let header = state.accept_header(&head)?;
    let payload = frame[HEADER_SIZE..HEADER_SIZE + header.payload_len as usize].to_vec();
    state.on_fragment(header, payload, now)
}

#[test]
fn header_encodes_big_endian() {
    let bytes = sample_header().encode();
    assert_eq!(
        bytes,
        [0x12, 0x35, 0x01, 1, 2, 3, 4, 5, 6, 7, 8, 0x00, 0x03, 0x01, 0x00, 0x3f, 0xef]
    );
}

#[test]
fn header_decode_roundtrip() {
    let h = sample_header();
    assert_eq!(FragmentHeader::decode(&h.encode(), 0x1235), Ok(h));
}

#[test]
fn header_decode_rejects_wrong_magic() {
    let h = sample_header();
    assert_eq!(
        FragmentHeader::decode(&h.encode(), 0x1111),
        Err(ProtocolError::InvalidMagic { found: 0x1235, expected: 0x1111 })
    );
}

#[test]
fn magic_is_odd() {
    for _ in 0..32 {
        assert_eq!(generate_magic() & 1, 1);
    }
    assert_eq!(magic_from_random(0x1234), 0x1235);
    assert_eq!(magic_from_random(0x1235), 0x1235);
}

#[test]
fn default_config_values() {
    let c = ProtocolConfig::default();
    assert_eq!(c.compression_level, 6);
    assert_eq!(c.assembler_timeout, 30_000_000_000);
    assert_eq!(c.max_total_fragments, 1024);
    assert_eq!(c.max_message_size, 64 * 1024 * 1024);
    assert_eq!(c.max_assemblers, 1000);
    assert_eq!(c.read_timeout, 60_000_000_000);
    assert_eq!(c.completed_timeout, 60_000_000_000);
    assert_eq!(c.max_completed, 1000);
    assert_eq!(c.keepalive_interval, Some(30_000_000_000));
    assert_eq!(c.payload_limit_exec(), 64 * 1024 * 1024 + 4);
}

#[test]
fn payload_limit_saturates() {
    let c = ProtocolConfig { max_message_size: usize::MAX - 1, ..ProtocolConfig::default() };
    assert_eq!(c.payload_limit_exec(), usize::MAX);
}

#[test]
fn constants() {
    assert_eq!(MAX_PACKET_SIZE, 16384);
    assert_eq!(HEADER_SIZE, 17);
    assert_eq!(MAX_PAYLOAD_SIZE, 16367);
}

#[test]
fn fragment_counts() {
    assert_eq!(count_fragments(0), 1);
    assert_eq!(count_fragments(1), 1);
    assert_eq!(count_fragments(16367), 1);
    assert_eq!(count_fragments(16368), 2);
    assert_eq!(count_fragments(30004), 2);
    assert_eq!(count_fragments(3 * 16367), 3);
}

#[test]
fn crc_prefix_known_value() {
    // CRC-32 of "123456789" is 0xCBF43926.
    let sealed = seal_payload(b"123456789", false, 6).unwrap();
    assert_eq!(sealed.1, false);
    assert_eq!(&sealed.0[..4], &[0xcb, 0xf4, 0x39, 0x26]);
    assert_eq!(&sealed.0[4..], b"123456789");
    assert_eq!(prefix_crc(0xcbf43926, b"ab"), vec![0xcb, 0xf4, 0x39, 0x26, b'a', b'b']);
}

#[test]
fn compression_used_when_smaller() {
    let data = vec![b'X'; 30_000];
    let (payload, compressed) = seal_payload(&data, true, 6).unwrap();
    assert!(compressed);
    assert!(payload.len() < 30_004);
}

#[test]
fn compression_skipped_when_not_smaller() {
    let data = b"ab".to_vec();
    let (payload, compressed) = seal_payload(&data, true, 6).unwrap();
    assert!(!compressed);
    assert_eq!(payload.len(), 6);
    assert_eq!(open_payload(&payload), Ok(data));
}

#[test]
fn open_payload_checks_crc() {
    let (mut payload, _) = seal_payload(b"hello", false, 6).unwrap();
    assert_eq!(open_payload(&payload), Ok(b"hello".to_vec()));
    payload[5] ^= 1;
    match open_payload(&payload) {
        Err(ProtocolError::CrcMismatch { carried, .. }) => assert_eq!(carried, 0x3610a686),
        other => panic!("unexpected {:?}", other),
    }
    assert_eq!(open_payload(&[1, 2, 3]), Err(ProtocolError::MissingCrc));
}

#[test]
fn check_crc_compares_prefix() {
    let bytes = [0, 0, 1, 2, 9, 9];
    assert_eq!(check_crc(&bytes, 0x0102), Ok(vec![9, 9]));
    assert_eq!(
        check_crc(&bytes, 0x0103),
        Err(ProtocolError::CrcMismatch { carried: 0x0102, computed: 0x0103 })
    );
}

#[test]
fn framing_splits_payload() {
    let payload: Vec<u8> = (0..30_004u32).map(|i| (i % 251) as u8).collect();
    let frames = frame_payload(&payload, 77, MAGIC, 0, 1024, 1 << 20).unwrap();
    assert_eq!(frames.len(), 2);
    assert_eq!(frames[0].len(), MAX_PACKET_SIZE);
    assert_eq!(frames[1].len(), HEADER_SIZE + 30_004 - 16_367);
    let mut head = [0u8; HEADER_SIZE];
    head.copy_from_slice(&frames[1][..HEADER_SIZE]);
    let h = FragmentHeader::decode(&head, MAGIC).unwrap();
    assert_eq!(h.message_id, 77);
    assert_eq!(h.fragment_index, 1);
    assert_eq!(h.total_fragments, 2);
    assert_eq!(h.payload_len as usize, 30_004 - 16_367);
    let mut joined = frames[0][HEADER_SIZE..].to_vec();
    joined.extend_from_slice(&frames[1][HEADER_SIZE..]);
    assert_eq!(joined, payload);
}

#[test]
fn framing_empty_payload_is_one_fragment() {
    let frames = frame_payload(&[], 1, MAGIC, 0, 1024, 100).unwrap();
    assert_eq!(frames.len(), 1);
    assert_eq!(frames[0].len(), HEADER_SIZE);
}

#[test]
fn framing_limits() {
    let payload = vec![0u8; 40_000];
    assert_eq!(
        frame_payload(&payload, 1, MAGIC, 0, 1024, 39_999),
        Err(ProtocolError::MessageTooLarge { size: 40_000, max_size: 39_999 })
    );
    assert_eq!(
        frame_payload(&payload, 1, MAGIC, 0, 2, 1 << 20),
        Err(ProtocolError::FragmentLimit { needed: 3, limit: 2 })
    );
}

#[test]
fn assembler_collects_out_of_order() {
    let mut a = MessageAssembler::new(5, 3, false, 0);
    assert!(!a.add_fragment(2, vec![5, 6]));
    assert!(!a.add_fragment(0, vec![1, 2]));
    assert!(!a.add_fragment(0, vec![9]));
    assert!(!a.add_fragment(7, vec![9]));
    assert!(a.add_fragment(1, vec![3, 4]));
    assert_eq!(a.assemble(100), Ok(vec![1, 2, 3, 4, 5, 6]));
}

#[test]
fn assembler_incomplete_and_too_large() {
    let mut a = MessageAssembler::new(5, 2, false, 0);
    a.add_fragment(0, vec![1, 2, 3]);
    assert_eq!(
        a.assemble(100),
        Err(ProtocolError::Incomplete { message_id: 5, received: 1, total: 2 })
    );
    let mut b = MessageAssembler::new(6, 2, false, 0);
    b.add_fragment(0, vec![1, 2, 3]);
    b.add_fragment(1, vec![4]);
    assert_eq!(b.assemble(3), Err(ProtocolError::MessageTooLarge { size: 4, max_size: 3 }));
}

#[test]
fn assembler_decompresses() {
    let data = vec![b'Y'; 5000];
    let (payload, compressed) = seal_payload(&data, true, 6).unwrap();
    assert!(compressed);
    let mut a = MessageAssembler::new(1, 1, true, 0);
    assert!(a.add_fragment(0, payload));
    let out = a.assemble(1 << 20).unwrap();
    assert_eq!(open_payload(&out), Ok(data));
    let mut bad = MessageAssembler::new(1, 1, true, 0);
    bad.add_fragment(0, vec![1, 2, 3, 4]);
    assert_eq!(bad.assemble(100), Err(ProtocolError::DecompressionFailed));
}

#[test]
fn assembler_expiry() {
    let a = MessageAssembler::new(1, 1, false, 1_000);
    assert!(!a.is_expired(500, 10));
    assert!(!a.is_expired(1_010, 10));
    assert!(a.is_expired(1_011, 10));
}

#[test]
fn state_roundtrip_compressed() {
    let mut tx = ProtocolState::with_initial_id(MAGIC, 40);
    let mut rx = ProtocolState::with_initial_id(MAGIC, 900);
    let data = vec![b'X'; 30_000];
    let frames = tx.prepare_message(&data, true).unwrap();
    assert_eq!(tx.next_id(), 41);
    assert_eq!(frames.len(), 1);
    assert_eq!(frames[0][2], FLAG_COMPRESSED);
    assert_eq!(receive(&mut rx, &frames[0], 0), Ok(Some(data)));
    assert!(rx.is_completed(40));
    assert_eq!(rx.pending_count(), 0);
}

#[test]
fn state_roundtrip_multi_fragment() {
    let mut tx = ProtocolState::with_initial_id(MAGIC, u64::MAX);
    let mut rx = ProtocolState::with_initial_id(MAGIC, 0);
    let data: Vec<u8> = (0..50_000u32).map(|i| (i * 7 % 256) as u8).collect();
    let frames = tx.prepare_message(&data, false).unwrap();
    assert_eq!(tx.next_id(), 0);
    assert_eq!(frames.len(), 4);
    for f in &frames[..3] {
        assert_eq!(receive(&mut rx, f, 5), Ok(None));
    }
    assert_eq!(rx.pending_count(), 1);
    assert_eq!(receive(&mut rx, &frames[3], 5), Ok(Some(data)));
    // a repeated fragment of a delivered message is ignored
    assert_eq!(receive(&mut rx, &frames[0], 6), Ok(None));
    assert_eq!(rx.pending_count(), 0);
}

#[test]
fn state_rejects_bad_headers() {
    let mut tx = ProtocolState::with_initial_id(MAGIC, 1);
    let rx = ProtocolState::with_initial_id(0x0101, 1);
    let frames = tx.prepare_message(b"hi", false).unwrap();
    let mut head = [0u8; HEADER_SIZE];
    head.copy_from_slice(&frames[0][..HEADER_SIZE]);
    assert_eq!(
        rx.accept_header(&head),
        Err(ProtocolError::InvalidMagic { found: MAGIC, expected: 0x0101 })
    );
    let big = FragmentHeader {
        magic: 0x0101,
        flags: 0,
        message_id: 1,
        fragment_index: 0,
        total_fragments: 1,
        payload_len: 16_368,
    };
    assert_eq!(rx.accept_header(&big.encode()), Err(ProtocolError::PayloadTooLarge { len: 16_368 }));
}

#[test]
fn state_rejects_too_many_fragments() {
    let mut rx = ProtocolState::with_initial_id(MAGIC, 1);
    let h = FragmentHeader {
        magic: MAGIC,
        flags: 0,
        message_id: 3,
        fragment_index: 0,
        total_fragments: 1025,
        payload_len: 1,
    };
    assert_eq!(
        rx.on_fragment(h, vec![0], 0),
        Err(ProtocolError::TooManyFragments { announced: 1025, limit: 1024 })
    );
}

#[test]
fn state_assembly_timeout() {
    let mut rx = ProtocolState::with_initial_id(MAGIC, 1);
    let h = FragmentHeader {
        magic: MAGIC,
        flags: 0,
        message_id: 3,
        fragment_index: 0,
        total_fragments: 2,
        payload_len: 1,
    };
    assert_eq!(rx.on_fragment(h, vec![0], 0), Ok(None));
    let h2 = FragmentHeader { fragment_index: 1, ..h };
    assert_eq!(
        rx.on_fragment(h2, vec![1], 30_000_000_001),
        Err(ProtocolError::AssemblyTimeout { message_id: 3 })
    );
    assert_eq!(rx.pending_count(), 0);
}

#[test]
fn state_crc_mismatch_is_reported() {
    let mut tx = ProtocolState::with_initial_id(MAGIC, 8);
    let mut rx = ProtocolState::with_initial_id(MAGIC, 1);
    let mut frames = tx.prepare_message(b"payload", false).unwrap();
    let last = frames[0].len() - 1;
    frames[0][last] ^= 0xff;
    match receive(&mut rx, &frames[0], 0) {
        Err(ProtocolError::CrcMismatch { .. }) => {}
        other => panic!("unexpected {:?}", other),
    }
    assert!(rx.is_completed(8));
}

#[test]
fn state_send_limits() {
    let config = ProtocolConfig { max_message_size: 10, ..ProtocolConfig::default() };
    let mut tx = ProtocolState::with_initial_id(MAGIC, 1).with_config(config);
    assert_eq!(
        tx.prepare_message(&[0u8; 11], false),
        Err(ProtocolError::MessageTooLarge { size: 15, max_size: 14 })
    );
    assert_eq!(tx.next_id(), 2);
    let config2 = ProtocolConfig { max_total_fragments: 1, ..ProtocolConfig::default() };
    let mut tx2 = ProtocolState::with_initial_id(MAGIC, 1).with_config(config2);
    assert_eq!(
        tx2.prepare_message(&[0u8; 20_000], false),
        Err(ProtocolError::FragmentLimit { needed: 2, limit: 1 })
    );
}

#[test]
fn state_cleanup_drops_expired_and_oldest() {
    let config = ProtocolConfig {
        max_assemblers: 2,
        max_completed: 1,
        assembler_timeout: 100,
        completed_timeout: 100,
        ..ProtocolConfig::default()
    };
    let mut rx = ProtocolState::with_initial_id(MAGIC, 1).with_config(config);
    for (id, t) in [(10u64, 0u64), (11, 50), (12, 60), (13, 70)] {
        let h = FragmentHeader {
            magic: MAGIC,
            flags: 0,
            message_id: id,
            fragment_index: 0,
            total_fragments: 2,
            payload_len: 1,
        };
        assert_eq!(rx.on_fragment(h, vec![1], t), Ok(None));
    }
    for (id, t) in [(20u64, 80u64), (21, 90)] {
        let h = FragmentHeader {
            magic: MAGIC,
            flags: 0,
            message_id: id,
            fragment_index: 0,
            total_fragments: 1,
            payload_len: 5,
        };
        let (payload, _) = seal_payload(b"x", false, 6).unwrap();
        assert_eq!(rx.on_fragment(h, payload, t), Ok(Some(b"x".to_vec())));
    }
    assert_eq!(rx.pending_count(), 4);
    assert_eq!(rx.completed_count(), 2);
    assert!(rx.needs_cleanup());
    rx.cleanup(120);
    // id 10 expired (120 - 0 > 100); of 11, 12, 13 the oldest (11) goes
    assert_eq!(rx.pending_count(), 2);
    assert_eq!(rx.completed_count(), 1);
    assert!(rx.is_completed(21));
    assert!(!rx.is_completed(20));
    assert!(!rx.needs_cleanup());
}

#[test]
fn state_roundtrip_spread_over_time() {
    let mut tx = ProtocolState::with_initial_id(MAGIC, 500);
    let mut rx = ProtocolState::with_initial_id(MAGIC, 0);
    let data: Vec<u8> = (0..40_000u32).map(|i| (i % 199) as u8).collect();
    let frames = tx.prepare_message(&data, false).unwrap();
    assert_eq!(frames.len(), 3);
    let start = 1_000u64;
    let timeout = ProtocolConfig::default().assembler_timeout;
    assert_eq!(receive(&mut rx, &frames[0], start), Ok(None));
    assert_eq!(receive(&mut rx, &frames[1], start + timeout / 2), Ok(None));
    assert_eq!(receive(&mut rx, &frames[2], start + timeout), Ok(Some(data)));
    assert!(rx.is_completed(500));
}
