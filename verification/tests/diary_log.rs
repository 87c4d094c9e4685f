use echodb::diary::{Diary, Pos, Writer};
use echodb::error::Error;
use echodb::hamt::Root;
use echodb::roots_log::{is_covered, RootsLog};

#[test]
fn positions() {
    assert_eq!(Pos::at(7).start(), 7);
    assert_eq!(Pos::at(7).u32(), 7);
    assert_eq!(Pos::at(7), Pos::at(7));
    assert_eq!(Pos::at(3).plus(Pos::at(4)), Some(Pos::at(7)));
    assert_eq!(Pos::at(usize::MAX).plus(Pos::at(1)), None);
    assert_eq!(Pos::at(0).to_string(), "0");
    assert_eq!(Pos::at(4096).to_string(), "4096");
    assert_eq!(Pos::at(0x1_0000_0007).u32(), 7);
}

#[test]
fn diary_commit_moves_the_size() {
    let mut diary = Diary::load("diary.dat".to_string(), 0);
    assert_eq!(diary.len_in_bytes(), 0);
    let mut writer = diary.writer(Vec::new());
    assert_eq!(writer.write(&[1, 2, 3]), 0);
    assert_eq!(writer.write(&[4]), 3);
    assert_eq!(writer.end_size(), 4);
    assert_eq!(diary.len_in_bytes(), 0);
    diary.commit(&writer);
    assert_eq!(diary.len_in_bytes(), 4);
    assert_eq!(diary.file_path, "diary.dat");
}

#[test]
fn writer_drops_what_lies_past_the_committed_size() {
    let diary = Diary::load("d".to_string(), 3);
    let writer = diary.writer(vec![1, 2, 3, 4, 5]);
    assert_eq!(writer.as_slice(), &[1, 2, 3][..]);
    let short = diary.writer(vec![9]);
    assert_eq!(short.as_slice(), &[9, 0, 0][..]);
}

#[test]
fn reader_sees_committed_bytes_only() {
    let diary = Diary::load("d".to_string(), 2);
    let reader = diary.reader(&[1, 2, 3, 4]);
    assert_eq!(reader.len(), 2);
    assert_eq!(reader.as_slice(), &[1, 2][..]);
    assert_eq!(reader.read_at(0, 2), Some(&[1u8, 2][..]));
    assert_eq!(reader.read_at(1, 2), None);
    assert_eq!(reader.read_at(2, 0), Some(&[][..]));
    assert_eq!(reader.read_at(3, 0), None);
}

#[test]
fn writer_tail_and_rewind() {
    let mut writer = Writer::new();
    writer.write(&[1, 2, 3, 4]);
    assert_eq!(writer.written_since(1), vec![2, 3, 4]);
    assert_eq!(writer.written_since(4), Vec::<u8>::new());
    assert_eq!(writer.written_since(5), Vec::<u8>::new());
    writer.rewind(6);
    assert_eq!(writer.end_size(), 4);
    writer.rewind(1);
    assert_eq!(writer.as_slice(), &[1][..]);
    assert_eq!(writer.reader().as_slice(), &[1][..]);
}

#[test]
fn blob_start_is_its_handle() {
    let mut writer = Writer::new();
    assert_eq!(writer.write_blob(&[7, 7]), Ok(0));
    assert_eq!(writer.write_blob(&[8]), Ok(2));
    assert_eq!(writer.as_slice(), &[7, 7, 8][..]);
}

#[test]
fn empty_roots_log_gives_empty_tries() {
    let log = RootsLog::new(Vec::new(), 0);
    assert_eq!(log.roots(), (Root::zero(), Root::zero()));
    assert_eq!(log.len(), 0);
    assert_eq!(RootsLog::empty().roots(), (Root::zero(), Root::zero()));
}

fn pair(a: Root, b: Root) -> Vec<u8> {
    let mut bytes = a.to_bytes().unwrap();
    bytes.extend(b.to_bytes().unwrap());
    bytes
}

#[test]
fn roots_log_appends_pairs() {
    let mut log = RootsLog::empty();
    let a = Root { pos: 8, mask: 3 };
    let b = Root { pos: 40, mask: 1 };
    assert_eq!(log.write_roots(a, b), Ok(()));
    assert_eq!(log.roots(), (a, b));
    assert_eq!(log.len(), 16);
    assert_eq!(log.written_since(0), pair(a, b));
    assert_eq!(log.write_roots(b, a), Ok(()));
    assert_eq!(log.written_since(16), pair(b, a));
    assert_eq!(log.roots(), (b, a));
}

#[test]
fn unstorable_root_leaves_the_log_as_it_was() {
    let mut log = RootsLog::empty();
    let a = Root { pos: 8, mask: 3 };
    log.write_roots(a, a).unwrap();
    let bad = Root { pos: 0x8000_0000, mask: 1 };
    assert_eq!(log.write_roots(a, bad), Err(Error::InvariantViolation));
    assert_eq!(log.write_roots(bad, a), Err(Error::InvariantViolation));
    assert_eq!(log.len(), 16);
    assert_eq!(log.roots(), (a, a));
}

#[test]
fn opening_reads_the_last_pair() {
    let a = Root { pos: 8, mask: 3 };
    let b = Root { pos: 40, mask: 1 };
    let mut contents = pair(a, a);
    contents.extend(pair(a, b));
    let log = RootsLog::new(contents.clone(), 48);
    assert_eq!(log.roots(), (a, b));
    assert_eq!(log.written_since(0), contents);
}

#[test]
fn torn_tail_is_cut_off() {
    let a = Root { pos: 8, mask: 3 };
    let b = Root { pos: 40, mask: 1 };
    let mut contents = pair(a, b);
    contents.extend(vec![0u8, 0, 0, 99, 0, 0, 0, 1, 0, 0, 0]);
    let log = RootsLog::new(contents, 48);
    assert_eq!(log.len(), 16);
    assert_eq!(log.roots(), (a, b));
    let reopened = RootsLog::new(log.written_since(0), 48);
    assert_eq!(reopened.len(), 16);
    assert_eq!(reopened.roots(), (a, b));
}

#[test]
fn pairs_that_the_diary_does_not_cover_are_cut_off() {
    let a = Root { pos: 8, mask: 3 };
    let b = Root { pos: 40, mask: 1 };
    let c = Root { pos: 48, mask: 1 };
    let mut contents = pair(a, a);
    contents.extend(pair(a, b));
    contents.extend(pair(c, b));
    let log = RootsLog::new(contents.clone(), 48);
    assert_eq!(log.len(), 32);
    assert_eq!(log.roots(), (a, b));
    let log = RootsLog::new(contents.clone(), 47);
    assert_eq!(log.len(), 16);
    assert_eq!(log.roots(), (a, a));
    let log = RootsLog::new(contents.clone(), 23);
    assert_eq!(log.len(), 0);
    assert_eq!(log.roots(), (Root::zero(), Root::zero()));
    let log = RootsLog::new(contents, 56);
    assert_eq!(log.len(), 48);
    assert_eq!(log.roots(), (c, b));
}

#[test]
fn pair_with_a_value_flag_is_not_a_pair_of_roots() {
    let a = Root { pos: 8, mask: 3 };
    let mut contents = pair(a, a);
    let mut bad = pair(a, a);
    bad[8] |= 0x80;
    contents.extend(bad);
    let log = RootsLog::new(contents, 1000);
    assert_eq!(log.len(), 16);
    assert_eq!(log.roots(), (a, a));
}

#[test]
fn covered_counts_eight_bytes_for_each_bit() {
    assert!(is_covered(Root { pos: 10, mask: 0b111 }, 34));
    assert!(!is_covered(Root { pos: 10, mask: 0b111 }, 33));
    assert!(is_covered(Root::zero(), 0));
    assert!(!is_covered(Root { pos: 0x7fff_ffff, mask: 0xffff_ffff }, 0x7fff_ffff));
}
