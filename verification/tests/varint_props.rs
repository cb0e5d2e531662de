use jfr_core::error::JfrError;
use jfr_core::varint;

fn decode_all(bytes: &Vec<u8>) -> Result<(u64, usize), JfrError> {
    varint::decode_at(bytes, 0)
}

#[test]
fn unsigned_round_trip_small_values() {
    let samples: Vec<u64> = vec![0, 1, 2, 100, 127, 128, 129, 300, 16383, 16384, 65535];
    for v in samples {
        let enc = varint::encode(v);
        let (dec, used) = decode_all(&enc).unwrap();
        assert_eq!(dec, v);
        assert_eq!(used, enc.len());
    }
}

#[test]
fn unsigned_round_trip_large_values() {
    let samples: Vec<u64> = vec![
        u64::MAX,
        u64::MAX - 1,
        1 << 63,
        (1 << 63) - 1,
        (1 << 56) + 17,
        0xdead_beef_cafe_f00d,
    ];
    for v in samples {
        let enc = varint::encode(v);
        let (dec, used) = decode_all(&enc).unwrap();
        assert_eq!(dec, v);
        assert_eq!(used, enc.len());
        assert!(enc.len() <= 10);
    }
}

#[test]
fn signed_round_trip() {
    let samples: Vec<i64> = vec![0, 1, -1, 2, -2, 63, -64, 64, -65, i64::MAX, i64::MIN, -123456789];
    for v in samples {
        let enc = varint::encode_signed(v);
        let (dec, used) = varint::decode_signed_at(&enc, 0).unwrap();
        assert_eq!(dec, v);
        assert_eq!(used, enc.len());
    }
}

#[test]
fn known_encodings() {
    // 300 = 0b10_0101100: low seven bits 0101100 with the continuation bit,
    // then 0b10.
    assert_eq!(varint::encode(300), vec![0xacu8, 0x02u8]);
    assert_eq!(varint::encode(0), vec![0x00u8]);
    assert_eq!(varint::encode(127), vec![0x7fu8]);
    assert_eq!(varint::encode(128), vec![0x80u8, 0x01u8]);
    // Zigzag: -1 encodes as 1, 1 encodes as 2.
    assert_eq!(varint::encode_signed(-1), vec![0x01u8]);
    assert_eq!(varint::encode_signed(1), vec![0x02u8]);
}

#[test]
fn ten_continuation_bytes_overflow() {
    let bytes: Vec<u8> = vec![0xff; 10];
    assert_eq!(decode_all(&bytes), Err(JfrError::IntegerOverflow));
    let bytes2: Vec<u8> = vec![0x80; 10];
    assert_eq!(decode_all(&bytes2), Err(JfrError::IntegerOverflow));
}

#[test]
fn truncated_runs_fail_with_truncated() {
    let empty: Vec<u8> = Vec::new();
    assert_eq!(decode_all(&empty), Err(JfrError::Truncated));
    let bytes: Vec<u8> = vec![0x80];
    assert_eq!(decode_all(&bytes), Err(JfrError::Truncated));
    let bytes2: Vec<u8> = vec![0xff, 0xff, 0xff];
    assert_eq!(decode_all(&bytes2), Err(JfrError::Truncated));
}

#[test]
fn tenth_byte_value_bits_overflow() {
    // Nine continuation bytes and a tenth byte larger than 1: the value
    // would need more than 64 bits.
    let mut bytes: Vec<u8> = vec![0x80; 9];
    bytes.push(0x02);
    assert_eq!(decode_all(&bytes), Err(JfrError::IntegerOverflow));
    // A tenth byte of exactly 1 sets bit 63.
    let mut ok: Vec<u8> = vec![0x80; 9];
    ok.push(0x01);
    let (v, used) = decode_all(&ok).unwrap();
    assert_eq!(v, 1u64 << 63);
    assert_eq!(used, 10);
}
