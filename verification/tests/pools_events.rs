use jfr_core::constpool::{decode_pool_section, resolve_pools, unresolved_warnings};
use jfr_core::error::Warning;
use jfr_core::events::{decode_event_record, decode_event_section};
use jfr_core::registry::{FieldDef, TypeDef, TypeKind};
use jfr_core::value::{PoolEntry, Value};

fn field(name: u64, type_id: u64, is_array: bool, cp_ref: bool) -> FieldDef {
    FieldDef { name, type_id, is_array, cp_ref }
}

fn typedef(id: u64, kind: TypeKind, fields: Vec<FieldDef>) -> TypeDef {
    TypeDef { id, name: 0, kind, fields }
}

#[test]
fn missing_reference_resolves_to_unresolved_sentinel() {
    let arena = vec![PoolEntry {
        type_id: 7,
        constant_id: 1,
        value: Value::ConstantRef(7, 99),
    }];
    let resolved = resolve_pools(&arena);
    assert_eq!(resolved.len(), 1);
    assert_eq!(resolved[0].type_id, 7);
    assert_eq!(resolved[0].constant_id, 1);
    assert_eq!(resolved[0].value, Value::Unresolved(7, 99));
}

#[test]
fn unresolved_sentinels_are_reported_as_warnings() {
    let arena = vec![
        PoolEntry { type_id: 7, constant_id: 1, value: Value::ConstantRef(7, 99) },
        PoolEntry {
            type_id: 8,
            constant_id: 2,
            value: Value::Array(vec![Value::Unsigned(1), Value::ConstantRef(9, 5)]),
        },
    ];
    let resolved = resolve_pools(&arena);
    let warns = unresolved_warnings(&resolved);
    assert_eq!(warns.len(), 2);
    assert!(matches!(warns[0], Warning::UnresolvedConstant(7, 99)));
    assert!(matches!(warns[1], Warning::UnresolvedConstant(9, 5)));
}

#[test]
fn reference_chains_resolve_through_the_arena() {
    let arena = vec![
        PoolEntry { type_id: 7, constant_id: 1, value: Value::ConstantRef(7, 2) },
        PoolEntry { type_id: 7, constant_id: 2, value: Value::Unsigned(5) },
    ];
    let resolved = resolve_pools(&arena);
    assert_eq!(resolved[0].value, Value::Unsigned(5));
    assert_eq!(resolved[1].value, Value::Unsigned(5));
}

#[test]
fn reference_cycles_resolve_to_unresolved_not_loop() {
    let arena = vec![
        PoolEntry { type_id: 7, constant_id: 1, value: Value::ConstantRef(7, 2) },
        PoolEntry { type_id: 7, constant_id: 2, value: Value::ConstantRef(7, 1) },
    ];
    let resolved = resolve_pools(&arena);
    assert!(matches!(resolved[0].value, Value::Unresolved(7, _)));
    assert!(matches!(resolved[1].value, Value::Unresolved(7, _)));
}

#[test]
fn pool_section_decodes_entries_by_type_rules() {
    // One pool record for type 5 (a string-index type): two entries.
    let reg = vec![typedef(5, TypeKind::StringIndex, Vec::new())];
    let bytes: Vec<u8> = vec![8, 5, 0, 2, 1, 3, 2, 4];
    let (arena, warns) = decode_pool_section(&bytes, &reg).unwrap();
    assert!(warns.is_empty());
    assert_eq!(arena.len(), 2);
    assert_eq!(arena[0].type_id, 5);
    assert_eq!(arena[0].constant_id, 1);
    assert_eq!(arena[0].value, Value::Str(3));
    assert_eq!(arena[1].constant_id, 2);
    assert_eq!(arena[1].value, Value::Str(4));
}

#[test]
fn pool_record_of_unregistered_type_is_skipped_with_warning() {
    let reg = vec![typedef(5, TypeKind::StringIndex, Vec::new())];
    // First record: type 99 is unknown, size 4 skips it wholesale. Second
    // record: one entry of type 5.
    let bytes: Vec<u8> = vec![4, 99, 0, 0, 6, 5, 0, 1, 9, 2];
    let (arena, warns) = decode_pool_section(&bytes, &reg).unwrap();
    assert_eq!(warns.len(), 1);
    assert!(matches!(warns[0], Warning::UnknownType(99)));
    assert_eq!(arena.len(), 1);
    assert_eq!(arena[0].constant_id, 9);
    assert_eq!(arena[0].value, Value::Str(2));
}

#[test]
fn unknown_event_type_skipped_known_type_decoded() {
    // Registry: event type 42 with one signed field of type 1000.
    let reg = vec![
        typedef(42, TypeKind::Composite, vec![field(7, 1000, false, false)]),
        typedef(1000, TypeKind::SignedInt, Vec::new()),
    ];
    let pools: Vec<PoolEntry> = Vec::new();
    // Record one: unregistered type 99, size 4. Record two: type 42 with
    // field value zigzag(-5) = 9.
    let bytes: Vec<u8> = vec![4, 99, 0, 0, 3, 42, 9];
    let (events, warns) = decode_event_section(&bytes, &reg, &pools).unwrap();
    assert_eq!(warns.len(), 1);
    assert!(matches!(warns[0], Warning::UnknownType(99)));
    assert_eq!(events.len(), 1);
    assert_eq!(events[0].type_id, 42);
    assert_eq!(events[0].fields, vec![(7u64, Value::Integer(-5))]);
}

#[test]
fn array_fields_decode_count_then_elements() {
    let reg = vec![
        typedef(42, TypeKind::Composite, vec![field(7, 1000, true, false)]),
        typedef(1000, TypeKind::SignedInt, Vec::new()),
    ];
    let pools: Vec<PoolEntry> = Vec::new();
    // One record: count 2, then zigzag(1) = 2 and zigzag(-2) = 3.
    let bytes: Vec<u8> = vec![5, 42, 2, 2, 3];
    let (events, warns) = decode_event_section(&bytes, &reg, &pools).unwrap();
    assert!(warns.is_empty());
    assert_eq!(events.len(), 1);
    assert_eq!(
        events[0].fields,
        vec![(7u64, Value::Array(vec![Value::Integer(1), Value::Integer(-2)]))]
    );
}

#[test]
fn constant_references_in_events_resolve_eagerly() {
    let reg = vec![typedef(42, TypeKind::Composite, vec![field(7, 5, false, true)])];
    let pools = vec![PoolEntry { type_id: 5, constant_id: 33, value: Value::Str(2) }];
    // Known id 33 resolves; unknown id 44 leaves the sentinel.
    let bytes: Vec<u8> = vec![3, 42, 33, 3, 42, 44];
    let (events, warns) = decode_event_section(&bytes, &reg, &pools).unwrap();
    assert_eq!(events.len(), 2);
    assert_eq!(events[0].fields, vec![(7u64, Value::Str(2))]);
    assert_eq!(events[1].fields, vec![(7u64, Value::Unresolved(5, 44))]);
    // The substituted sentinel is recorded as a warning.
    assert_eq!(warns.len(), 1);
    assert!(matches!(warns[0], Warning::UnresolvedConstant(5, 44)));
}

#[test]
fn records_decode_one_at_a_time_on_demand() {
    let reg = vec![
        typedef(42, TypeKind::Composite, vec![field(7, 1000, false, false)]),
        typedef(1000, TypeKind::SignedInt, Vec::new()),
    ];
    let pools: Vec<PoolEntry> = Vec::new();
    // Two records; a consumer may pull the first and stop there.
    let bytes: Vec<u8> = vec![3, 42, 9, 3, 42, 2];
    let ((evt, warn), next) = decode_event_record(&bytes, 0, &reg, &pools).unwrap();
    assert!(warn.is_none());
    let e = evt.unwrap();
    assert_eq!(e.fields, vec![(7u64, Value::Integer(-5))]);
    assert_eq!(next, 3);
    let ((evt2, _), end) = decode_event_record(&bytes, next, &reg, &pools).unwrap();
    assert_eq!(evt2.unwrap().fields, vec![(7u64, Value::Integer(1))]);
    assert_eq!(end, bytes.len());
}

#[test]
fn reserved_markers_are_skipped_silently() {
    let reg = vec![typedef(42, TypeKind::Composite, Vec::new())];
    let pools: Vec<PoolEntry> = Vec::new();
    // A metadata marker record and a constant-pool marker record, then one
    // real (empty-schema) event.
    let bytes: Vec<u8> = vec![3, 0, 0, 3, 1, 0, 2, 42];
    let (events, warns) = decode_event_section(&bytes, &reg, &pools).unwrap();
    assert!(warns.is_empty());
    assert_eq!(events.len(), 1);
    assert_eq!(events[0].type_id, 42);
    assert!(events[0].fields.is_empty());
}

#[test]
fn event_timestamp_is_first_integer_field() {
    let reg = vec![
        typedef(
            42,
            TypeKind::Composite,
            vec![field(7, 1001, false, false), field(8, 1000, false, false)],
        ),
        typedef(1000, TypeKind::SignedInt, Vec::new()),
        typedef(1001, TypeKind::UnsignedInt, Vec::new()),
    ];
    let pools: Vec<PoolEntry> = Vec::new();
    let bytes: Vec<u8> = vec![4, 42, 77, 9];
    let (events, _) = decode_event_section(&bytes, &reg, &pools).unwrap();
    assert_eq!(events[0].timestamp, 77);
    assert_eq!(events[0].fields[0], (7u64, Value::Unsigned(77)));
    assert_eq!(events[0].fields[1], (8u64, Value::Integer(-5)));
}

#[test]
fn float_and_boolean_fields_decode_fixed_width() {
    let reg = vec![
        typedef(
            42,
            TypeKind::Composite,
            vec![
                field(1, 1002, false, false),
                field(2, 1003, false, false),
                field(3, 1004, false, false),
            ],
        ),
        typedef(1002, TypeKind::Boolean, Vec::new()),
        typedef(1003, TypeKind::Float32, Vec::new()),
        typedef(1004, TypeKind::Float64, Vec::new()),
    ];
    let pools: Vec<PoolEntry> = Vec::new();
    let mut bytes: Vec<u8> = vec![15, 42, 1];
    bytes.extend_from_slice(&[0x3f, 0x80, 0x00, 0x00]); // 1.0f bits
    bytes.extend_from_slice(&[0x40, 0x09, 0x21, 0xfb, 0x54, 0x44, 0x2d, 0x18]);
    let (events, _) = decode_event_section(&bytes, &reg, &pools).unwrap();
    assert_eq!(events[0].fields[0], (1u64, Value::Boolean(true)));
    assert_eq!(events[0].fields[1], (2u64, Value::FloatBits(0x3f80_0000)));
    assert_eq!(
        events[0].fields[2],
        (3u64, Value::FloatBits(0x4009_21fb_5444_2d18))
    );
    assert_eq!(f32::from_bits(0x3f80_0000), 1.0f32);
}
