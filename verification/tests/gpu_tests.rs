use primerug::gpu::{
    decode_batch_result, encode_batch_request, encode_compact_request, is_tcp_address,
    next_batch_id, read_u32_le, GpuDecodeError, TAG_COMPACT,
};

fn reply(batch_id: u32, rounds: &[u32], survivors: &[u32]) -> Vec<u8> {
    let mut b = Vec::new();
    b.extend_from_slice(&batch_id.to_le_bytes());
    b.extend_from_slice(&(rounds.len() as u32).to_le_bytes());
    for r in rounds {
        b.extend_from_slice(&r.to_le_bytes());
    }
    b.extend_from_slice(&(survivors.len() as u32).to_le_bytes());
    for s in survivors {
        b.extend_from_slice(&s.to_le_bytes());
    }
    b
}

#[test]
fn decode_rejects_short_replies() {
    assert_eq!(decode_batch_result(&[]).err(), Some(GpuDecodeError::ResponseTooShort));
    assert_eq!(decode_batch_result(&[0; 7]).err(), Some(GpuDecodeError::ResponseTooShort));
}

#[test]
fn decode_reads_back_a_reply() {
    let b = reply(9, &[100, 7, 1], &[5, 4_000_000_000]);
    let r = decode_batch_result(&b).ok().unwrap();
    assert_eq!(r.round_counts, vec![100, 7, 1]);
    assert_eq!(r.survivor_indices, vec![5, 4_000_000_000]);
}

#[test]
fn decode_empty_lists() {
    let b = reply(1, &[], &[]);
    let r = decode_batch_result(&b).ok().unwrap();
    assert!(r.round_counts.is_empty());
    assert!(r.survivor_indices.is_empty());
    // Header only: no survivor count at all.
    let r = decode_batch_result(&b[..8]).ok().unwrap();
    assert!(r.round_counts.is_empty());
    assert!(r.survivor_indices.is_empty());
}

#[test]
fn decode_keeps_what_a_cut_reply_holds() {
    let b = reply(3, &[10, 20, 30], &[1, 2, 3]);
    // Cut inside the round counts: two rounds survive, no survivors.
    let r = decode_batch_result(&b[..18]).ok().unwrap();
    assert_eq!(r.round_counts, vec![10, 20]);
    assert!(r.survivor_indices.is_empty());
    // Cut inside the survivor indices.
    let r = decode_batch_result(&b[..b.len() - 2]).ok().unwrap();
    assert_eq!(r.round_counts, vec![10, 20, 30]);
    assert_eq!(r.survivor_indices, vec![1, 2]);
    // A count larger than what follows: the survivor count is read as a
    // round count, and nothing is left for the survivors.
    let mut c = reply(3, &[10], &[]);
    c[4] = 5;
    let r = decode_batch_result(&c).ok().unwrap();
    assert_eq!(r.round_counts, vec![10, 0]);
    assert!(r.survivor_indices.is_empty());
}

#[test]
fn read_u32_is_little_endian() {
    assert_eq!(read_u32_le(&[0x78, 0x56, 0x34, 0x12, 0xff], 0), 0x1234_5678);
    assert_eq!(read_u32_le(&[0, 1, 0, 0, 0], 1), 1);
    assert_eq!(read_u32_le(&[0xef, 0xbe, 0xad, 0xde], 0), 0xdead_beef);
}

#[test]
fn batch_request_layout() {
    let limbs = [1u32, 2, 3];
    let pattern = [0u64, 2];
    let buf = encode_batch_request(0x0102_0304, &limbs, &pattern, 3, 1);
    let mut expected = Vec::new();
    expected.extend_from_slice(&0x0102_0304u32.to_le_bytes());
    expected.push(2);
    expected.extend_from_slice(&0u64.to_le_bytes());
    expected.extend_from_slice(&2u64.to_le_bytes());
    expected.extend_from_slice(&3u16.to_le_bytes());
    expected.extend_from_slice(&1u32.to_le_bytes());
    for l in limbs {
        expected.extend_from_slice(&l.to_ne_bytes());
    }
    assert_eq!(buf, expected);
}

#[test]
fn compact_request_layout() {
    let primorial = [30u32];
    let first = [7u32, 1, 9];
    let f_values = [4u32, 8];
    let pattern = [0u64, 4, 6];
    let buf = encode_compact_request(77, &primorial, &first, &f_values, &pattern, 2);
    let mut expected = vec![TAG_COMPACT];
    expected.extend_from_slice(&77u32.to_le_bytes());
    expected.push(3);
    for p in pattern {
        expected.extend_from_slice(&p.to_le_bytes());
    }
    expected.extend_from_slice(&2u16.to_le_bytes());
    // Primorial padded to two limbs, first candidate cut to two limbs.
    for v in [30u32, 0, 7, 1] {
        expected.extend_from_slice(&v.to_le_bytes());
    }
    expected.extend_from_slice(&2u32.to_le_bytes());
    for v in f_values {
        expected.extend_from_slice(&v.to_le_bytes());
    }
    assert_eq!(buf, expected);
    assert_eq!(buf[0], 0x02);
}

#[test]
fn pattern_length_is_sent_as_one_byte() {
    let pattern: Vec<u64> = (0..300).collect();
    let buf = encode_batch_request(0, &[], &pattern, 0, 0);
    assert_eq!(buf[4], (300 % 256) as u8);
    assert_eq!(buf.len(), 4 + 1 + 8 * 300 + 2 + 4);
}

#[test]
fn batch_ids_wrap() {
    assert_eq!(next_batch_id(0), 1);
    assert_eq!(next_batch_id(41), 42);
    assert_eq!(next_batch_id(u32::MAX), 0);
}

#[test]
fn tcp_addresses_have_a_colon() {
    assert!(is_tcp_address("127.0.0.1:9000"));
    assert!(is_tcp_address("gpu-host:1"));
    assert!(!is_tcp_address("/tmp/primerug.sock"));
    assert!(!is_tcp_address(""));
}
