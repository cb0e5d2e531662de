use jfr_core::cursor::Cursor;
use jfr_core::error::JfrError;
use jfr_core::events::Event;

#[test]
fn read_exact_advances_and_bounds_checks() {
    let data: Vec<u8> = vec![1, 2, 3, 4, 5];
    let mut c = Cursor::new(&data);
    assert_eq!(c.len(), 5);
    assert_eq!(c.tell(), 0);
    let first = c.read_exact(2).unwrap();
    assert_eq!(first, vec![1u8, 2u8]);
    assert_eq!(c.tell(), 2);
    assert_eq!(c.remaining(), 3);
    assert_eq!(c.read_exact(4), Err(JfrError::Truncated));
    // A failed read leaves the cursor where it was.
    assert_eq!(c.tell(), 2);
    let rest = c.read_exact(3).unwrap();
    assert_eq!(rest, vec![3u8, 4u8, 5u8]);
}

#[test]
fn seek_is_bounds_checked() {
    let data: Vec<u8> = vec![9, 8, 7];
    let mut c = Cursor::new(&data);
    assert!(c.seek(3));
    assert_eq!(c.tell(), 3);
    assert!(!c.seek(4));
    assert_eq!(c.tell(), 3);
    assert!(c.seek(0));
    assert_eq!(c.tell(), 0);
}

#[test]
fn slice_reads_without_moving_the_position() {
    let data: Vec<u8> = vec![10, 20, 30, 40];
    let mut c = Cursor::new(&data);
    assert!(c.seek(1));
    let w = c.slice(2, 2).unwrap();
    assert_eq!(w, vec![30u8, 40u8]);
    assert_eq!(c.tell(), 1);
    assert_eq!(c.slice(3, 2), Err(JfrError::Truncated));
}

#[test]
fn cursor_varint_reads() {
    let data: Vec<u8> = vec![0xac, 0x02, 0x09];
    let mut c = Cursor::new(&data);
    assert_eq!(c.read_varint().unwrap(), 300);
    assert_eq!(c.tell(), 2);
    assert_eq!(c.read_varint_signed().unwrap(), -5);
    assert_eq!(c.tell(), 3);
    assert_eq!(c.read_varint(), Err(JfrError::Truncated));
}

#[test]
fn event_new_starts_empty() {
    let e = Event::new(42, 7);
    assert_eq!(e.type_id, 42);
    assert_eq!(e.timestamp, 7);
    assert!(e.fields.is_empty());
}
