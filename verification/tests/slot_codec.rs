use echodb::error::Error;
use echodb::slot::Slot;

#[test]
fn value_slot_round_trip() {
    let slot = Slot::Value { key: 0x1234_5678, value: 0xdead_beef };
    let mut bytes: Vec<u8> = Vec::new();
    assert_eq!(slot.write(&mut bytes), 8);
    assert_eq!(bytes, vec![0x92, 0x34, 0x56, 0x78, 0xde, 0xad, 0xbe, 0xef]);
    assert_eq!(Slot::read(&bytes, 0), Ok(slot));
}

#[test]
fn ref_slot_round_trip() {
    let slot = Slot::Ref { pos: 258, mask: 0x8000_0001 };
    let mut bytes: Vec<u8> = vec![7];
    assert_eq!(slot.write(&mut bytes), 8);
    assert_eq!(bytes, vec![7, 0, 0, 1, 2, 0x80, 0, 0, 1]);
    assert_eq!(Slot::read(&bytes, 1), Ok(slot));
}

#[test]
fn empty_slot_has_no_bytes() {
    let mut bytes: Vec<u8> = Vec::new();
    assert_eq!(Slot::Empty.write(&mut bytes), 0);
    assert!(bytes.is_empty());
}

#[test]
fn short_source_is_an_io_error() {
    let bytes: Vec<u8> = vec![0; 7];
    assert_eq!(Slot::read(&bytes, 0), Err(Error::Io));
    let bytes: Vec<u8> = vec![0; 9];
    assert_eq!(Slot::read(&bytes, 2), Err(Error::Io));
    assert_eq!(Slot::read(&bytes, usize::MAX), Err(Error::Io));
}
