use jfr_core::chunk::{decode_chunk_at, decode_file, decode_file_resilient, scan_chunk_ranges};
use jfr_core::error::JfrError;
use jfr_core::metadata::{encode_element, MetadataElement};
use jfr_core::registry::TypeKind;
use jfr_core::value::Value;
use jfr_core::varint;

fn push_u16(out: &mut Vec<u8>, v: u16) {
    out.push((v >> 8) as u8);
    out.push(v as u8);
}

fn push_u64(out: &mut Vec<u8>, v: u64) {
    for k in 0..8 {
        out.push((v >> (8 * (7 - k))) as u8);
    }
}

fn header_bytes(size: u64, cp_off: u64, meta_off: u64) -> Vec<u8> {
    let mut out: Vec<u8> = Vec::new();
    out.push(0x46);
    out.push(0x4c);
    out.push(0x52);
    out.push(0x00);
    push_u16(&mut out, 2);
    push_u16(&mut out, 0);
    push_u64(&mut out, size);
    push_u64(&mut out, cp_off);
    push_u64(&mut out, meta_off);
    push_u64(&mut out, 0);
    push_u64(&mut out, 0);
    push_u64(&mut out, 0);
    push_u64(&mut out, 1_000_000_000);
    out.push(0);
    out.push(0);
    out.push(0);
    out.push(0);
    out
}

fn elem(name: u64, attrs: Vec<(u64, u64)>, children: Vec<MetadataElement>) -> MetadataElement {
    MetadataElement { name, attributes: attrs, children }
}

/// Prologue, string table, and element tree of a metadata section, with
/// the record's self-inclusive size declared correctly.
fn meta_section(strings: &[&[u8]], root: &MetadataElement) -> Vec<u8> {
    let mut body: Vec<u8> = Vec::new();
    for v in [0u64, 0, 0, 0, strings.len() as u64] {
        let mut e = varint::encode(v);
        body.append(&mut e);
    }
    for s in strings {
        let mut e = varint::encode(s.len() as u64);
        body.append(&mut e);
        body.extend_from_slice(s);
    }
    encode_element(root, &mut body);
    // The size field includes its own encoding; it stays one byte here.
    assert!(body.len() + 1 < 128);
    let mut out = varint::encode((body.len() + 1) as u64);
    out.append(&mut body);
    out
}

/// A minimal chunk of exactly `size` bytes: empty event region, one skipped
/// pool record filling the gap, and a trivial metadata section at the end.
fn minimal_chunk(size: usize) -> Vec<u8> {
    let strings: [&[u8]; 0] = [];
    let meta = meta_section(&strings, &elem(0, Vec::new(), Vec::new()));
    let meta_off = size - meta.len();
    // Constant pools right after the header; their one record is of an
    // unregistered type and is skipped by its declared size.
    let cp_len = meta_off - 68;
    assert!((2..128).contains(&cp_len));
    let mut out = header_bytes(size as u64, 68, meta_off as u64);
    out.push(cp_len as u8);
    out.push(99);
    while out.len() < meta_off {
        out.push(0);
    }
    out.extend_from_slice(&meta);
    assert_eq!(out.len(), size);
    out
}

#[test]
fn zero_length_input_is_empty_or_invalid_file() {
    let empty: Vec<u8> = Vec::new();
    assert_eq!(decode_file(&empty).unwrap_err(), JfrError::EmptyOrInvalidFile);
    assert_eq!(
        scan_chunk_ranges(&empty).unwrap_err(),
        JfrError::EmptyOrInvalidFile
    );
}

#[test]
fn two_chunks_yield_two_decodes_and_exact_boundaries() {
    let mut file = minimal_chunk(100);
    let mut second = minimal_chunk(150);
    file.append(&mut second);
    assert_eq!(file.len(), 250);

    let (chunks, _warns) = decode_file(&file).unwrap();
    assert_eq!(chunks.len(), 2);
    assert_eq!(chunks[0].header.size, 100);
    assert_eq!(chunks[1].header.size, 150);
    // The final cursor equals the summed declared sizes: nothing residual.
    assert_eq!(
        chunks[0].header.size + chunks[1].header.size,
        file.len() as u64
    );

    let ranges = scan_chunk_ranges(&file).unwrap();
    assert_eq!(ranges, vec![(0usize, 100usize), (100usize, 250usize)]);
}

#[test]
fn trailing_garbage_after_last_chunk_is_corrupt() {
    let mut file = minimal_chunk(100);
    file.push(0xff);
    // 101 bytes: the second header read fails mid-chain, and the chain is
    // what framing rests on.
    assert!(decode_file(&file).is_err());
}

#[test]
fn chunk_size_overshooting_the_source_is_corrupt() {
    let mut file = minimal_chunk(100);
    file.truncate(90);
    // The header still parses, but its declared end lies past the source.
    assert_eq!(decode_file(&file).unwrap_err(), JfrError::Corrupt);
}

#[test]
fn bad_magic_aborts_the_file() {
    let mut file = minimal_chunk(100);
    file[1] = 0x00;
    assert_eq!(decode_file(&file).unwrap_err(), JfrError::InvalidMagic);
}

#[test]
fn resilient_walk_surfaces_chunks_alongside_errors() {
    // A good chunk, then a chunk whose header parses but whose metadata
    // section is corrupt: the walk skips it by its declared size, records
    // the error, and keeps the first chunk.
    let mut file = minimal_chunk(100);
    let mut bad = minimal_chunk(150);
    // Understate the second chunk's metadata record size: its body fails.
    bad[141] = 1;
    file.append(&mut bad);
    let scan = decode_file_resilient(&file);
    assert!(scan.fatal.is_none());
    assert_eq!(scan.chunks.len(), 1);
    assert_eq!(scan.chunk_errors.len(), 1);
    assert_eq!(scan.chunk_errors[0], JfrError::Corrupt);
    assert_eq!(scan.chunks[0].header.size, 100);

    // A clean file reports neither chunk errors nor a fatal error.
    let good = minimal_chunk(100);
    let scan2 = decode_file_resilient(&good);
    assert!(scan2.fatal.is_none());
    assert!(scan2.chunk_errors.is_empty());
    assert_eq!(scan2.chunks.len(), 1);

    // Empty input: no chunks, fatal EmptyOrInvalidFile.
    let empty: Vec<u8> = Vec::new();
    let scan3 = decode_file_resilient(&empty);
    assert!(scan3.chunks.is_empty());
    assert_eq!(scan3.fatal, Some(JfrError::EmptyOrInvalidFile));
}

#[test]
fn metadata_record_size_must_cover_its_bytes() {
    // Declared metadata size smaller than what its parts span: Corrupt.
    let mut file = minimal_chunk(100);
    // The metadata section starts at offset 91; its size varint is the
    // first byte there. Understate it.
    file[91] = 1;
    assert_eq!(decode_file(&file).unwrap_err(), JfrError::Corrupt);
}

#[test]
fn scan_ranges_tie_each_end_to_the_declared_size() {
    let mut file = minimal_chunk(100);
    let mut second = minimal_chunk(150);
    file.append(&mut second);
    let ranges = scan_chunk_ranges(&file).unwrap();
    for r in &ranges {
        let (lo, hi) = *r;
        // Each range spans exactly the size declared in its own header.
        let mut sz: u64 = 0;
        for k in 0..8 {
            sz = (sz << 8) | file[lo + 8 + k] as u64;
        }
        assert_eq!((hi - lo) as u64, sz);
    }
}

#[test]
fn full_chunk_with_schema_pools_and_event() {
    // Strings: 0 reserved, then tags, names and numbers used by the schema.
    let strings: [&[u8]; 10] = [
        b"", b"class", b"id", b"name", b"field", b"long", b"42", b"x", b"1000", b"myevent",
    ];
    // Root declares two types: event type 42 ("myevent") with one signed
    // field "x" of type 1000 ("long").
    let event_class = elem(
        1,
        vec![(2, 6), (3, 9)],
        vec![elem(4, vec![(3, 7), (1, 8)], Vec::new())],
    );
    let long_class = elem(1, vec![(2, 8), (3, 5)], Vec::new());
    let root = elem(0, Vec::new(), vec![event_class, long_class]);
    let meta = meta_section(&strings, &root);

    // One event record of type 42 with x = -5 (zigzag 9).
    let events: Vec<u8> = vec![3, 42, 9];
    let meta_off = 68 + events.len();
    let cp_off = meta_off + meta.len();
    let size = cp_off + 2;

    let mut file = header_bytes(size as u64, cp_off as u64, meta_off as u64);
    file.extend_from_slice(&events);
    file.extend_from_slice(&meta);
    file.push(2);
    file.push(99);
    assert_eq!(file.len(), size);

    let (chunk, warns) = decode_chunk_at(&file, 0).unwrap();
    assert_eq!(chunk.strings.len(), 10);
    assert_eq!(chunk.strings[9], b"myevent".to_vec());
    assert_eq!(chunk.registry.len(), 2);
    assert_eq!(chunk.registry[0].id, 42);
    assert_eq!(chunk.registry[0].kind, TypeKind::Composite);
    assert_eq!(chunk.registry[0].fields.len(), 1);
    assert_eq!(chunk.registry[0].fields[0].name, 7);
    assert_eq!(chunk.registry[0].fields[0].type_id, 1000);
    assert_eq!(chunk.registry[1].id, 1000);
    assert_eq!(chunk.registry[1].kind, TypeKind::SignedInt);
    assert_eq!(chunk.events.len(), 1);
    assert_eq!(chunk.events[0].type_id, 42);
    assert_eq!(chunk.events[0].fields, vec![(7u64, Value::Integer(-5))]);
    // The one warning is the skipped pool record of unregistered type 99.
    assert_eq!(warns.len(), 1);

    let (chunks, _) = decode_file(&file).unwrap();
    assert_eq!(chunks.len(), 1);
    assert_eq!(chunks[0].events.len(), 1);
}
