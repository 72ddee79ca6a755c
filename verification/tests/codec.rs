use silo::record::{decode, decode_record, encode, Entry, Operation, MAX_FIELD_BYTES};
use silo::wire::{put_bytes, put_u16, put_u64, read_u16, read_u64, same_bytes};

fn put(value: &str) -> Operation {
    Operation::Put(value.to_string())
}

#[test]
fn encode_lays_out_a_delete_record() {
    let bytes = encode("k", &Operation::Delete, 7);
    assert_eq!(
        bytes,
        vec![64, 19, 0, 0, 0, 0, 0, 0, 0, 7, 0, 0, 0, 0, 0, 0, 0, 1, 107, 1]
    );
}

#[test]
fn encode_lays_out_a_set_record() {
    let bytes = encode("hello", &put("sun"), 1_700_000_000);
    assert_eq!(
        bytes,
        vec![
            1, 240, 0, 0, 0, 0, 101, 83, 241, 0, 0, 0, 0, 0, 0, 0, 0, 5, 104, 101, 108, 108, 111,
            0, 0, 0, 0, 0, 0, 0, 0, 3, 115, 117, 110
        ]
    );
}

#[test]
fn encode_counts_bytes_not_characters() {
    let bytes = encode("é", &put("ü"), 1);
    assert_eq!(
        bytes,
        vec![
            70, 241, 0, 0, 0, 0, 0, 0, 0, 1, 0, 0, 0, 0, 0, 0, 0, 2, 195, 169, 0, 0, 0, 0, 0, 0,
            0, 0, 2, 195, 188
        ]
    );
}

#[test]
fn checksum_is_crc_16_ibm_sdlc() {
    // The checksum of a `Delete` of the key "" at time 0 covers 17 bytes: sixteen
    // zeroes and the opcode 1.
    let bytes = encode("", &Operation::Delete, 0);
    let mut register: u16 = 0xFFFF;
    for byte in &bytes[2..] {
        register ^= *byte as u16;
        for _ in 0..8 {
            register = if register & 1 == 1 { (register >> 1) ^ 0x8408 } else { register >> 1 };
        }
    }
    assert_eq!(read_u16(&bytes, 0), register ^ 0xFFFF);
    assert_ne!(&bytes[..2], &bytes[2..4]);
}

#[test]
fn decode_reads_back_what_encode_wrote() {
    let bytes = encode("hello", &put("sun"), 1_700_000_000);
    let (entry, end) = decode(&bytes, 0).unwrap();
    assert_eq!(end, bytes.len());
    assert_eq!(
        entry,
        Entry {
            offset: 0,
            timestamp: 1_700_000_000,
            key: "hello".to_string(),
            operation: put("sun"),
        }
    );
}

#[test]
fn round_trip_of_keys_and_values() {
    let texts = ["", "a", "hello world", "naïve — ünïcödé ✓", "tab\tand\nnewline", "\u{10FFFF}"];
    for key in texts {
        for value in texts {
            for operation in [put(value), Operation::Delete] {
                let bytes = encode(key, &operation, 42);
                let entry = decode_record(&bytes).unwrap();
                assert_eq!(entry.key, key);
                assert_eq!(entry.operation, operation);
                assert_eq!(entry.timestamp, 42);
                assert_eq!(entry.offset, 0);
            }
        }
    }
}

#[test]
fn decode_at_an_offset_ignores_what_surrounds_the_record() {
    let first = encode("a", &put("1"), 1);
    let second = encode("b", &Operation::Delete, 2);
    let mut bytes = first.clone();
    bytes.extend_from_slice(&second);
    bytes.extend_from_slice(&[9, 9, 9]);
    let (entry, end) = decode(&bytes, first.len()).unwrap();
    assert_eq!(entry.offset, first.len() as u64);
    assert_eq!(entry.key, "b");
    assert_eq!(entry.operation, Operation::Delete);
    assert_eq!(end, first.len() + second.len());
    assert!(decode(&bytes, end).is_none());
    assert!(decode(&bytes, bytes.len()).is_none());
    assert!(decode(&bytes, bytes.len() + 1).is_none());
}

#[test]
fn flipping_any_single_bit_makes_decode_fail() {
    for operation in [put("some value"), Operation::Delete] {
        let bytes = encode("a key", &operation, 1_234_567);
        assert!(decode_record(&bytes).is_some());
        for at in 0..bytes.len() {
            for bit in 0..8 {
                let mut damaged = bytes.clone();
                damaged[at] ^= 1 << bit;
                assert!(decode_record(&damaged).is_none(), "byte {at} bit {bit}");
            }
        }
    }
}

#[test]
fn decode_refuses_a_truncated_record() {
    let bytes = encode("key", &put("value"), 5);
    for len in 0..bytes.len() {
        assert!(decode(&bytes[..len], 0).is_none(), "length {len}");
    }
}

#[test]
fn decode_refuses_an_unknown_opcode() {
    // A frame with a valid checksum over an opcode that is neither 0 nor 1.
    let mut body = Vec::new();
    put_u64(&mut body, 3);
    put_u64(&mut body, 1);
    body.push(b'k');
    body.push(2);
    let mut register: u16 = 0xFFFF;
    for byte in &body {
        register ^= *byte as u16;
        for _ in 0..8 {
            register = if register & 1 == 1 { (register >> 1) ^ 0x8408 } else { register >> 1 };
        }
    }
    let mut bytes = Vec::new();
    put_u16(&mut bytes, register ^ 0xFFFF);
    put_bytes(&mut bytes, &body);
    assert!(decode(&bytes, 0).is_none());
    // The same frame with opcode 1 is a record.
    let good = encode("k", &Operation::Delete, 3);
    assert_eq!(good.len(), bytes.len());
    assert!(decode(&good, 0).is_some());
}

#[test]
fn decode_refuses_text_that_is_not_utf8() {
    let mut body = Vec::new();
    put_u64(&mut body, 3);
    put_u64(&mut body, 1);
    body.push(0xFF);
    body.push(1);
    let mut register: u16 = 0xFFFF;
    for byte in &body {
        register ^= *byte as u16;
        for _ in 0..8 {
            register = if register & 1 == 1 { (register >> 1) ^ 0x8408 } else { register >> 1 };
        }
    }
    let mut bytes = Vec::new();
    put_u16(&mut bytes, register ^ 0xFFFF);
    put_bytes(&mut bytes, &body);
    assert!(decode(&bytes, 0).is_none());
}

#[test]
fn decode_refuses_an_oversized_length_before_reading_the_field() {
    let mut bytes = vec![0, 0];
    put_u64(&mut bytes, 0);
    put_u64(&mut bytes, MAX_FIELD_BYTES + 1);
    bytes.extend_from_slice(&[0; 64]);
    assert!(decode(&bytes, 0).is_none());
    let mut huge = vec![0, 0];
    put_u64(&mut huge, 0);
    put_u64(&mut huge, u64::MAX);
    huge.extend_from_slice(&[0; 64]);
    assert!(decode(&huge, 0).is_none());
}

#[test]
fn the_field_limit_is_64_mib() {
    assert_eq!(MAX_FIELD_BYTES, 64 * 1024 * 1024);
}

#[test]
fn big_endian_numbers() {
    let mut out = vec![0xAA];
    put_u16(&mut out, 0x0102);
    put_u64(&mut out, 0x0304_0506_0708_090A);
    assert_eq!(out, vec![0xAA, 1, 2, 3, 4, 5, 6, 7, 8, 9, 10]);
    assert_eq!(read_u16(&out, 1), 0x0102);
    assert_eq!(read_u64(&out, 3), 0x0304_0506_0708_090A);
    assert_eq!(read_u64(&[0xFF; 8], 0), u64::MAX);
    assert_eq!(read_u16(&[0xFF, 0xFE], 0), 0xFFFE);
}

#[test]
fn same_bytes_compares_contents() {
    assert!(same_bytes(&[], &[]));
    assert!(same_bytes(&[1, 2, 3], &[1, 2, 3]));
    assert!(!same_bytes(&[1, 2, 3], &[1, 2, 4]));
    assert!(!same_bytes(&[1, 2, 3], &[1, 2]));
}
