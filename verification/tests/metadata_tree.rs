use jfr_core::error::JfrError;
use jfr_core::metadata::{
    decode_element, decode_string_table, encode_element, Metadata, MetadataElement,
};
use jfr_core::varint;

fn elem(name: u64, attrs: Vec<(u64, u64)>, children: Vec<MetadataElement>) -> MetadataElement {
    MetadataElement { name, attributes: attrs, children }
}

#[test]
fn element_tree_depth_three_round_trips() {
    // Depth 3, distinct attributes at each level.
    let leaf_a = elem(10, vec![(31, 41), (32, 42)], Vec::new());
    let leaf_b = elem(11, vec![(33, 43)], Vec::new());
    let mid = elem(5, vec![(21, 22)], vec![leaf_a, leaf_b]);
    let root = elem(1, vec![(2, 3), (4, 6)], vec![mid]);

    let mut bytes: Vec<u8> = Vec::new();
    encode_element(&root, &mut bytes);
    let (back, end) = decode_element(&bytes, 0).unwrap();
    assert_eq!(end, bytes.len());

    // Attribute-map equality at every depth.
    assert_eq!(back.name, 1);
    assert_eq!(back.attributes, vec![(2u64, 3u64), (4u64, 6u64)]);
    assert_eq!(back.children.len(), 1);
    let bmid = &back.children[0];
    assert_eq!(bmid.name, 5);
    assert_eq!(bmid.attributes, vec![(21u64, 22u64)]);
    assert_eq!(bmid.children.len(), 2);
    assert_eq!(bmid.children[0].name, 10);
    assert_eq!(bmid.children[0].attributes, vec![(31u64, 41u64), (32u64, 42u64)]);
    assert!(bmid.children[0].children.is_empty());
    assert_eq!(bmid.children[1].name, 11);
    assert_eq!(bmid.children[1].attributes, vec![(33u64, 43u64)]);
    assert_eq!(back, root);
}

#[test]
fn element_round_trips_with_trailing_bytes() {
    let e = elem(7, vec![(1, 2)], Vec::new());
    let mut bytes: Vec<u8> = Vec::new();
    encode_element(&e, &mut bytes);
    let enc_len = bytes.len();
    bytes.push(0xaa);
    bytes.push(0xbb);
    let (back, end) = decode_element(&bytes, 0).unwrap();
    assert_eq!(end, enc_len);
    assert_eq!(back, e);
}

#[test]
fn truncated_element_fails() {
    let e = elem(300, vec![(1, 2), (3, 4)], Vec::new());
    let mut bytes: Vec<u8> = Vec::new();
    encode_element(&e, &mut bytes);
    bytes.pop();
    assert!(decode_element(&bytes, 0).is_err());
}

#[test]
fn metadata_prologue_reads_six_varints() {
    let mut bytes: Vec<u8> = Vec::new();
    for v in [900u64, 0, 123, 456, 7, 3] {
        let mut enc = varint::encode(v);
        bytes.append(&mut enc);
    }
    let (m, end) = Metadata::new(&bytes).unwrap();
    assert_eq!(end, bytes.len());
    assert_eq!(m.size, 900);
    assert_eq!(m.event_type, 0);
    assert_eq!(m.start, 123);
    assert_eq!(m.duration, 456);
    assert_eq!(m.metadata_id, 7);
    assert_eq!(m.string_count, 3);
}

#[test]
fn metadata_prologue_truncated() {
    let bytes: Vec<u8> = vec![0x01, 0x02];
    assert!(matches!(Metadata::new(&bytes), Err(JfrError::Truncated)));
}

#[test]
fn string_table_round_trip() {
    // Three entries: "ab", empty, "xyz".
    let mut bytes: Vec<u8> = Vec::new();
    bytes.push(2);
    bytes.push(0x61);
    bytes.push(0x62);
    bytes.push(0);
    bytes.push(3);
    bytes.push(0x78);
    bytes.push(0x79);
    bytes.push(0x7a);
    let (strs, end) = decode_string_table(&bytes, 0, 3).unwrap();
    assert_eq!(end, bytes.len());
    assert_eq!(strs.len(), 3);
    assert_eq!(strs[0], vec![0x61u8, 0x62u8]);
    assert_eq!(strs[1], Vec::<u8>::new());
    assert_eq!(strs[2], vec![0x78u8, 0x79u8, 0x7au8]);
}

#[test]
fn string_table_length_overrun_is_truncated() {
    let bytes: Vec<u8> = vec![5, 0x61];
    assert!(matches!(
        decode_string_table(&bytes, 0, 1),
        Err(JfrError::Truncated)
    ));
}
