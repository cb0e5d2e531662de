use jfr_core::error::JfrError;
use jfr_core::header::{parse_header, u8_to_u16, u8_to_u32, u8_to_u64, Header, HEADER_LENGTH};

fn push_u16(out: &mut Vec<u8>, v: u16) {
    out.push((v >> 8) as u8);
    out.push(v as u8);
}

fn push_u32(out: &mut Vec<u8>, v: u32) {
    for k in 0..4 {
        out.push((v >> (8 * (3 - k))) as u8);
    }
}

fn push_u64(out: &mut Vec<u8>, v: u64) {
    for k in 0..8 {
        out.push((v >> (8 * (7 - k))) as u8);
    }
}

fn sample_header_bytes(
    size: u64,
    cp_off: u64,
    meta_off: u64,
    major: u16,
    minor: u16,
) -> Vec<u8> {
    let mut out: Vec<u8> = Vec::new();
    out.push(0x46);
    out.push(0x4c);
    out.push(0x52);
    out.push(0x00);
    push_u16(&mut out, major);
    push_u16(&mut out, minor);
    push_u64(&mut out, size);
    push_u64(&mut out, cp_off);
    push_u64(&mut out, meta_off);
    push_u64(&mut out, 11_111); // start nanos
    push_u64(&mut out, 22_222); // duration nanos
    push_u64(&mut out, 33_333); // start ticks
    push_u64(&mut out, 44_444); // ticks per second
    push_u32(&mut out, 0x0000_0101); // features
    out
}

#[test]
fn canonical_header_reproduces_every_field() {
    let s: u64 = 5000;
    let m: u64 = 4000;
    let c: u64 = 3000;
    let bytes = sample_header_bytes(s, c, m, 2, 0);
    assert_eq!(bytes.len(), HEADER_LENGTH);
    let h = parse_header(&bytes, 0).unwrap();
    assert_eq!(h.major_version, 2);
    assert_eq!(h.minor_version, 0);
    assert_eq!(h.size, s);
    assert_eq!(h.constant_pool_offset, c);
    assert_eq!(h.metadata_offset, m);
    assert_eq!(h.start_nanos, 11_111);
    assert_eq!(h.duration_nanos, 22_222);
    assert_eq!(h.start_ticks, 33_333);
    assert_eq!(h.ticks_per_second, 44_444);
    assert_eq!(h.features, 0x0000_0101);
}

#[test]
fn higher_minor_version_is_accepted() {
    let bytes = sample_header_bytes(500, 100, 200, 2, 9);
    let h = parse_header(&bytes, 0).unwrap();
    assert_eq!(h.minor_version, 9);
}

#[test]
fn wrong_magic_is_invalid_magic() {
    let mut bytes = sample_header_bytes(500, 100, 200, 2, 0);
    bytes[0] = 0x47;
    assert!(matches!(parse_header(&bytes, 0), Err(JfrError::InvalidMagic)));
}

#[test]
fn short_input_is_truncated() {
    let bytes: Vec<u8> = vec![0x46, 0x4c, 0x52, 0x00, 0x00];
    assert!(matches!(parse_header(&bytes, 0), Err(JfrError::Truncated)));
}

#[test]
fn wrong_major_version_is_unsupported() {
    let bytes = sample_header_bytes(500, 100, 200, 3, 0);
    assert!(matches!(parse_header(&bytes, 0), Err(JfrError::UnsupportedVersion)));
}

#[test]
fn size_below_header_length_is_corrupt() {
    let bytes = sample_header_bytes(10, 5, 6, 2, 0);
    assert!(matches!(parse_header(&bytes, 0), Err(JfrError::Corrupt)));
}

#[test]
fn offsets_outside_size_are_corrupt() {
    let bytes = sample_header_bytes(500, 600, 200, 2, 0);
    assert!(matches!(parse_header(&bytes, 0), Err(JfrError::Corrupt)));
    let bytes2 = sample_header_bytes(500, 100, 700, 2, 0);
    assert!(matches!(parse_header(&bytes2, 0), Err(JfrError::Corrupt)));
}

#[test]
fn header_new_reads_fixed_offsets() {
    let bytes = sample_header_bytes(999, 777, 888, 2, 1);
    let h = Header::new(&bytes);
    assert_eq!(h.size, 999);
    assert_eq!(h.constant_pool_offset, 777);
    assert_eq!(h.metadata_offset, 888);
    assert_eq!(h.major_version, 2);
    assert_eq!(h.minor_version, 1);
}

#[test]
fn big_endian_reads() {
    let bytes: Vec<u8> = vec![0x12, 0x34, 0x56, 0x78, 0x9a, 0xbc, 0xde, 0xf0, 0x01];
    assert_eq!(u8_to_u16(&bytes, 0), 0x1234);
    assert_eq!(u8_to_u16(&bytes, 1), 0x3456);
    assert_eq!(u8_to_u32(&bytes, 0), 0x1234_5678);
    assert_eq!(u8_to_u64(&bytes, 0), 0x1234_5678_9abc_def0);
    assert_eq!(u8_to_u64(&bytes, 1), 0x3456_789a_bcde_f001);
}

#[test]
fn parse_at_nonzero_start() {
    let mut bytes: Vec<u8> = vec![0xee, 0xee, 0xee];
    let mut hdr = sample_header_bytes(250, 68, 100, 2, 0);
    bytes.append(&mut hdr);
    let h = parse_header(&bytes, 3).unwrap();
    assert_eq!(h.size, 250);
    assert_eq!(h.metadata_offset, 100);
}
