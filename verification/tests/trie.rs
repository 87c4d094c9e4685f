use echodb::bits::{chunk_at, count_bits_below, mask_of_index, test_bit};
use echodb::diary::Writer;
use echodb::error::Error;
use echodb::frame::Frame;
use echodb::hamt::{Hamt, Root};
use echodb::slot::Slot;
use echodb::slot_index::SlotIndex;

#[test]
fn slot_index_masks() {
    assert_eq!(SlotIndex::at(0).as_mask(), 0x0000_0001);
    assert_eq!(SlotIndex::at(4).as_mask(), 0x0000_0010);
    assert_eq!(SlotIndex::at(31).as_mask(), 0x8000_0000);
    assert_eq!(SlotIndex::at(7).n, 7);
    assert_eq!(mask_of_index(9), 0x200);
}

#[test]
fn chunks_are_least_significant_first() {
    let hash: u32 = 0b01_00011_00010_00001_11111_00000_10101;
    assert_eq!(chunk_at(hash, 0), 0b10101);
    assert_eq!(chunk_at(hash, 1), 0);
    assert_eq!(chunk_at(hash, 2), 31);
    assert_eq!(chunk_at(hash, 3), 1);
    assert_eq!(chunk_at(hash, 4), 2);
    assert_eq!(chunk_at(hash, 5), 3);
    assert_eq!(chunk_at(hash, 6), 1);
}

#[test]
fn bit_counts() {
    assert_eq!(count_bits_below(0, 32), 0);
    assert_eq!(count_bits_below(0xffff_ffff, 32), 32);
    assert_eq!(count_bits_below(0b1011, 2), 2);
    assert_eq!(count_bits_below(0b1011, 4), 3);
    assert!(test_bit(0b100, 2));
    assert!(!test_bit(0b100, 3));
}

#[test]
fn frame_stores_only_occupied_slots_in_index_order() {
    let frame = Frame::empty()
        .with_slot(SlotIndex::at(9), Slot::Ref { pos: 3, mask: 5 })
        .with_slot(SlotIndex::at(2), Slot::Value { key: 1, value: 2 });
    assert_eq!(frame.mask(), (1 << 9) | (1 << 2));
    let mut writer = Writer::new();
    writer.write(&[0xaa, 0xbb]);
    assert_eq!(frame.write(&mut writer), Ok((2, (1 << 9) | (1 << 2))));
    assert_eq!(
        writer.as_slice(),
        &[0xaa, 0xbb, 0x80, 0, 0, 1, 0, 0, 0, 2, 0, 0, 0, 3, 0, 0, 0, 5][..]
    );
    let back = Frame::read(2, (1 << 9) | (1 << 2), writer.as_slice()).unwrap();
    assert_eq!(back.lookup(SlotIndex::at(2)), Slot::Value { key: 1, value: 2 });
    assert_eq!(back.lookup(SlotIndex::at(9)), Slot::Ref { pos: 3, mask: 5 });
    assert_eq!(back.lookup(SlotIndex::at(3)), Slot::Empty);
    assert_eq!(back.mask(), (1 << 9) | (1 << 2));
}

#[test]
fn a_stored_frame_has_one_slot_for_each_bit_of_its_mask() {
    let mut writer = Writer::new();
    let mut trie = Hamt::new(Root::zero());
    for key in [3u32, 35, 67, 4, 900, 17, 1 << 20] {
        trie.put(key, key + 1, &mut writer).unwrap();
    }
    let root = trie.root;
    let frame = Frame::read(root.pos as usize, root.mask, writer.as_slice()).unwrap();
    let mut occupied = 0;
    for i in 0..32 {
        let slot = frame.lookup(SlotIndex::at(i));
        assert_eq!(slot != Slot::Empty, root.mask & (1 << i) != 0);
        if slot != Slot::Empty {
            occupied += 1;
        }
    }
    assert_eq!(occupied, root.mask.count_ones());
    assert_eq!(frame.mask(), root.mask);
    assert_eq!(root.pos as usize + 8 * occupied as usize, writer.end_size());
}

#[test]
fn with_slot_leaves_the_frame_it_copies() {
    let first = Frame::empty().with_slot(SlotIndex::at(1), Slot::Value { key: 1, value: 1 });
    let second = first.with_slot(SlotIndex::at(1), Slot::Value { key: 1, value: 2 });
    assert_eq!(first.lookup(SlotIndex::at(1)), Slot::Value { key: 1, value: 1 });
    assert_eq!(second.lookup(SlotIndex::at(1)), Slot::Value { key: 1, value: 2 });
}

#[test]
fn frame_past_the_end_is_an_invariant_violation() {
    let bytes = vec![0u8; 15];
    assert!(matches!(Frame::read(0, 0b11, &bytes), Err(Error::InvariantViolation)));
    assert!(matches!(Frame::read(8, 0b1, &bytes), Err(Error::InvariantViolation)));
    assert!(Frame::read(7, 0b1, &bytes).is_ok());
    assert!(Frame::read(15, 0, &bytes).is_ok());
    assert!(matches!(Frame::read(16, 0, &bytes), Err(Error::InvariantViolation)));
}

#[test]
fn empty_trie_holds_nothing() {
    let trie = Hamt::new(Root::zero());
    assert!(Root::zero().is_zero());
    assert_eq!(trie.get(0, &[]), Ok(None));
    assert_eq!(trie.get(77, &[1, 2, 3]), Ok(None));
}

#[test]
fn first_put_writes_one_frame_at_the_end() {
    let mut writer = Writer::new();
    let mut trie = Hamt::new(Root::zero());
    let root = trie.put(5, 50, &mut writer).unwrap();
    assert_eq!(root, Root { pos: 0, mask: 1 << 5 });
    assert_eq!(trie.root, root);
    assert_eq!(writer.as_slice(), &[0x80, 0, 0, 5, 0, 0, 0, 50][..]);
    assert_eq!(trie.get(5, writer.as_slice()), Ok(Some(50)));
    assert_eq!(trie.get(37, writer.as_slice()), Ok(None));
    assert_eq!(trie.get(6, writer.as_slice()), Ok(None));
}

#[test]
fn keys_with_the_same_chunk_are_parted_one_level_down() {
    let mut writer = Writer::new();
    let mut trie = Hamt::new(Root::zero());
    trie.put(5, 50, &mut writer).unwrap();
    let root = trie.put(37, 70, &mut writer).unwrap();
    assert_eq!(root, Root { pos: 24, mask: 1 << 5 });
    assert_eq!(
        &writer.as_slice()[8..],
        &[
            0x80, 0, 0, 5, 0, 0, 0, 50, 0x80, 0, 0, 37, 0, 0, 0, 70, 0, 0, 0, 8, 0, 0, 0, 3
        ][..]
    );
    assert_eq!(trie.get(5, writer.as_slice()), Ok(Some(50)));
    assert_eq!(trie.get(37, writer.as_slice()), Ok(Some(70)));
    assert_eq!(trie.get(69, writer.as_slice()), Ok(None));
}

#[test]
fn keys_that_differ_only_in_the_last_chunk() {
    let mut writer = Writer::new();
    let mut trie = Hamt::new(Root::zero());
    let a: u32 = 0x0000_0001;
    let b: u32 = 0x4000_0001;
    trie.put(a, 1, &mut writer).unwrap();
    let root = trie.put(b, 2, &mut writer).unwrap();
    // one frame with both values, five frames with one reference, the top
    assert_eq!(writer.end_size(), 8 + 16 + 5 * 8 + 8);
    assert_eq!(root, Root { pos: 64, mask: 1 << 1 });
    assert_eq!(trie.get(a, writer.as_slice()), Ok(Some(1)));
    assert_eq!(trie.get(b, writer.as_slice()), Ok(Some(2)));
    assert_eq!(trie.get(0x2000_0001, writer.as_slice()), Ok(None));
}

#[test]
fn put_replaces_the_value_of_the_same_key() {
    let mut writer = Writer::new();
    let mut trie = Hamt::new(Root::zero());
    trie.put(9, 1, &mut writer).unwrap();
    trie.put(9, 2, &mut writer).unwrap();
    assert_eq!(trie.get(9, writer.as_slice()), Ok(Some(2)));
    assert_eq!(writer.end_size(), 16);
}

#[test]
fn last_put_wins_for_every_key() {
    let mut writer = Writer::new();
    let mut trie = Hamt::new(Root::zero());
    let mut expected = std::collections::BTreeMap::new();
    let mut x: u32 = 12345;
    for round in 0..2000u32 {
        x = x.wrapping_mul(1103515245).wrapping_add(12345);
        let key = (x >> 3) % 700 * 0x0010_0401 % 0x8000_0000;
        trie.put(key, round, &mut writer).unwrap();
        expected.insert(key, round);
    }
    for (key, value) in expected.iter() {
        assert_eq!(trie.get(*key, writer.as_slice()), Ok(Some(*value)));
    }
    assert_eq!(trie.get(0x7fff_fffe, writer.as_slice()), Ok(None));
}

#[test]
fn old_roots_keep_reading_their_version() {
    let mut writer = Writer::new();
    let mut trie = Hamt::new(Root::zero());
    trie.put(1, 10, &mut writer).unwrap();
    trie.put(33, 11, &mut writer).unwrap();
    let old = Hamt::new(trie.root);
    let old_len = writer.end_size();
    trie.put(1, 20, &mut writer).unwrap();
    trie.put(65, 30, &mut writer).unwrap();
    assert_eq!(old.get(1, writer.as_slice()), Ok(Some(10)));
    assert_eq!(old.get(33, writer.as_slice()), Ok(Some(11)));
    assert_eq!(old.get(65, writer.as_slice()), Ok(None));
    assert_eq!(old.get(1, &writer.as_slice()[..old_len]), Ok(Some(10)));
    assert_eq!(trie.get(1, writer.as_slice()), Ok(Some(20)));
    assert_eq!(trie.get(33, writer.as_slice()), Ok(Some(11)));
    assert_eq!(trie.get(65, writer.as_slice()), Ok(Some(30)));
}

#[test]
fn every_root_ends_within_the_diary() {
    let mut writer = Writer::new();
    let mut trie = Hamt::new(Root::zero());
    for key in 0..200u32 {
        let root = trie.put(key * 31, key, &mut writer).unwrap();
        let end = root.pos as usize + 8 * root.mask.count_ones() as usize;
        assert_eq!(end, writer.end_size());
    }
}

#[test]
fn key_with_the_top_bit_is_refused() {
    let mut writer = Writer::new();
    let mut trie = Hamt::new(Root::zero());
    assert_eq!(trie.put(0x8000_0000, 1, &mut writer), Err(Error::InvariantViolation));
    assert_eq!(trie.root, Root::zero());
    assert_eq!(writer.end_size(), 0);
    assert!(trie.put(0x7fff_ffff, 1, &mut writer).is_ok());
}

#[test]
fn get_on_a_root_past_the_end_fails() {
    let trie = Hamt::new(Root { pos: 4, mask: 1 });
    assert_eq!(trie.get(0, &[0u8; 11]), Err(Error::InvariantViolation));
}

#[test]
fn roots_are_stored_like_reference_slots() {
    let root = Root { pos: 0x0102_0304, mask: 0xf000_000f };
    let bytes = root.to_bytes().unwrap();
    assert_eq!(bytes, vec![1, 2, 3, 4, 0xf0, 0, 0, 0x0f]);
    assert_eq!(Root::read(&bytes, 0), Ok(root));
    assert_eq!(Root::zero().to_bytes().unwrap(), vec![0u8; 8]);
    assert_eq!(Root::read(&[0x80, 0, 0, 0, 0, 0, 0, 0], 0), Err(Error::InvariantViolation));
    assert_eq!(Root::read(&bytes, 1), Err(Error::InvariantViolation));
    assert_eq!(
        Root { pos: 0x8000_0000, mask: 0 }.to_bytes(),
        Err(Error::InvariantViolation)
    );
}
