use echodb::codec::{
    hash_bytes, object_payload, point_payload, read_object, read_point, read_ring, read_sayer,
    read_target, ring_payload, sayer_payload, target_payload,
};
use echodb::diary::{Diary, Pos, SayPos, Writer};
use echodb::error::Error;
use echodb::fact::{ObjectId, Point, Ring, Say, Sayer, Target};
use echodb::names::numbered_name;

#[test]
fn main() {
    let start_say = Say {
        sayer: Sayer::Unit,
        object: ObjectId::Unit,
        ring: Ring::Unit,
        point: Point::Unit,
        target: Some(Target::Number(3)),
    };
    let (path, contents, pos) = {
        let mut diary = Diary::load(Diary::temp_name(), 0);
        let mut writer = diary.writer(Vec::new());
        let pos = writer.write_say(&start_say).unwrap();
        assert_eq!(
            pos,
            SayPos {
                sayer: 0.into(),
                object: 1.into(),
                point: 2.into(),
                target: 3.into(),
                end: (4 + 8).into()
            }
        );
        diary.commit(&writer);
        let commit_reader = diary.reader(writer.as_slice());
        let commit_say = commit_reader.read_say(pos).unwrap();
        assert_eq!(commit_say, start_say);
        (diary.file_path.to_owned(), writer.written_since(0), pos)
    };
    let reload_diary = Diary::load(path, contents.len());
    let reload_reader = reload_diary.reader(&contents);
    let reload_say = reload_reader.read_say(pos).unwrap();
    assert_eq!(reload_say, start_say);
}

#[test]
fn unit_parts_are_one_tag_byte() {
    assert_eq!(sayer_payload(&Sayer::Unit), Ok(vec![0]));
    assert_eq!(object_payload(&ObjectId::Unit), Ok(vec![0]));
    assert_eq!(point_payload(&Point::Unit), Ok(vec![0]));
    assert_eq!(ring_payload(&Ring::Unit), Ok(vec![0]));
}

#[test]
fn number_is_a_tag_and_eight_bytes() {
    assert_eq!(
        target_payload(&Target::Number(0x0102_0304_0506_0708)),
        Ok(vec![1, 1, 2, 3, 4, 5, 6, 7, 8])
    );
    assert_eq!(target_payload(&Target::Number(3)), Ok(vec![1, 0, 0, 0, 0, 0, 0, 0, 3]));
    assert_eq!(
        read_target(&[9, 1, 0xff, 0, 0, 0, 0, 0, 0, 1], 1),
        Ok((Target::Number(0xff00_0000_0000_0001), 10))
    );
}

#[test]
fn text_is_a_tag_its_length_and_its_bytes() {
    assert_eq!(
        target_payload(&Target::Text("héllo".to_string())),
        Ok(vec![2, 0, 0, 0, 6, b'h', 0xc3, 0xa9, b'l', b'l', b'o'])
    );
    assert_eq!(
        object_payload(&ObjectId::new("Dracula")),
        Ok(vec![2, 0, 0, 0, 7, b'D', b'r', b'a', b'c', b'u', b'l', b'a'])
    );
    assert_eq!(sayer_payload(&Sayer::Named(String::new())), Ok(vec![2, 0, 0, 0, 0]));
    assert_eq!(
        ring_payload(&Ring::new("count", "Counter")),
        Ok(vec![
            3, 0, 0, 0, 5, b'c', b'o', b'u', b'n', b't', 0, 0, 0, 7, b'C', b'o', b'u', b'n', b't',
            b'e', b'r'
        ])
    );
}

#[test]
fn parts_read_back_as_written() {
    let sayer = Sayer::Named("Bo Peep".to_string());
    let object = ObjectId::new("sheep");
    let point = Point::Named("field".to_string());
    let ring = Ring::new("count", "Counter");
    let target = Target::Text("many".to_string());
    let mut bytes = vec![0xee];
    let at_sayer = bytes.len();
    bytes.extend(sayer_payload(&sayer).unwrap());
    let at_object = bytes.len();
    bytes.extend(object_payload(&object).unwrap());
    let at_point = bytes.len();
    bytes.extend(point_payload(&point).unwrap());
    let at_ring = bytes.len();
    bytes.extend(ring_payload(&ring).unwrap());
    let at_target = bytes.len();
    bytes.extend(target_payload(&target).unwrap());
    let end = bytes.len();
    assert_eq!(read_sayer(&bytes, at_sayer), Ok((sayer, at_object)));
    assert_eq!(read_object(&bytes, at_object), Ok((object, at_point)));
    assert_eq!(read_point(&bytes, at_point), Ok((point, at_ring)));
    assert_eq!(read_ring(&bytes, at_ring), Ok((ring, at_target)));
    assert_eq!(read_target(&bytes, at_target), Ok((target, end)));
}

#[test]
fn malformed_parts_are_refused() {
    assert_eq!(read_target(&[], 0), Err(Error::InvariantViolation));
    assert_eq!(read_target(&[0], 0), Err(Error::InvariantViolation));
    assert_eq!(read_target(&[1, 0, 0, 0, 0, 0, 0, 0], 0), Err(Error::InvariantViolation));
    assert_eq!(read_target(&[2, 0, 0, 0, 2, b'a'], 0), Err(Error::InvariantViolation));
    assert_eq!(read_target(&[2, 0, 0, 0, 1, 0xff], 0), Err(Error::InvariantViolation));
    assert_eq!(read_target(&[2, 0, 0, 0], 0), Err(Error::InvariantViolation));
    assert_eq!(read_object(&[1], 0), Err(Error::InvariantViolation));
    assert_eq!(read_object(&[0], 1), Err(Error::InvariantViolation));
    assert_eq!(read_sayer(&[3, 0, 0, 0, 0], 0), Err(Error::InvariantViolation));
    assert_eq!(read_point(&[2, 0xff, 0xff, 0xff, 0xff], 0), Err(Error::InvariantViolation));
    assert_eq!(read_ring(&[2, 0, 0, 0, 0], 0), Err(Error::InvariantViolation));
    assert_eq!(read_ring(&[3, 0, 0, 0, 0], 0), Err(Error::InvariantViolation));
    assert_eq!(
        read_ring(&[3, 0, 0, 0, 0, 0, 0, 0, 0], 0),
        Ok((Ring::Static { name: String::new(), aspect: String::new() }, 9))
    );
}

#[test]
fn hash_mixes_every_byte_and_keeps_the_top_bit_clear() {
    assert_eq!(hash_bytes(&[]), 0x811c_9dc5 & 0x7fff_ffff);
    assert_eq!(hash_bytes(&[]), 0x011c_9dc5);
    assert_eq!(hash_bytes(&[0]), 0x050c_5d1f);
    assert_eq!(hash_bytes(b"a"), 0xe40c_292c & 0x7fff_ffff);
    assert_eq!(hash_bytes(b"foobar"), 0xbf9c_f968 & 0x7fff_ffff);
    assert_ne!(hash_bytes(&[0, 1]), hash_bytes(&[1, 0]));
}

#[test]
fn fact_without_a_target_cannot_be_stored() {
    let say = Say {
        sayer: Sayer::Unit,
        object: ObjectId::Unit,
        ring: Ring::Unit,
        point: Point::Unit,
        target: None,
    };
    let mut writer = Writer::new();
    writer.write(&[1, 2]);
    assert_eq!(writer.write_say(&say), Err(Error::InvariantViolation));
    assert_eq!(writer.end_size(), 2);
}

#[test]
fn fact_with_names_reads_back() {
    let say = Say {
        sayer: Sayer::Named("Bo Peep".to_string()),
        object: ObjectId::new("sheep"),
        ring: Ring::new("count", "Counter"),
        point: Point::Named("field".to_string()),
        target: Some(Target::Text("many".to_string())),
    };
    let mut writer = Writer::new();
    writer.write(&[0xee; 5]);
    let pos = writer.write_say(&say).unwrap();
    assert_eq!(pos.sayer, Pos::at(5));
    assert_eq!(pos.object, Pos::at(5 + 12));
    assert_eq!(pos.point, Pos::at(5 + 12 + 10));
    assert_eq!(pos.target, Pos::at(5 + 12 + 10 + 10));
    assert_eq!(pos.end, Pos::at(5 + 12 + 10 + 10 + 9));
    assert_eq!(writer.end_size(), 5 + 12 + 10 + 10 + 9 + 21);
    assert_eq!(writer.reader().read_say(pos), Ok(say));
    let wrong = SayPos { sayer: Pos::at(4), ..pos };
    assert_eq!(writer.reader().read_say(wrong), Err(Error::InvariantViolation));
}

#[test]
fn numbered_names() {
    assert_eq!(numbered_name("diary", 0), "diary0");
    assert_eq!(numbered_name("diary", 7), "diary7");
    assert_eq!(numbered_name("x-", 1203), "x-1203");
    assert_eq!(numbered_name("", 4294967295), "4294967295");
}

#[test]
fn temp_names_are_numbered() {
    let name = Diary::temp_name();
    assert!(name.starts_with("diary"));
    let digits = &name["diary".len()..];
    let n: u32 = digits.parse().unwrap();
    assert_eq!(numbered_name("diary", n), name);
}
