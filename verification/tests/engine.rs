use echodb::echo::Echo;
use echodb::error::Error;
use echodb::fact::{ObjectId, Point, Ring, Say, Sayer, Speech, Target, Writable};
use echodb::diary::Writer;
use echodb::hamt::{Hamt, Root};
use echodb::write_scope::WriteScope;

fn count() -> Ring {
    Ring::new("count", "Counter")
}

fn max_count() -> Ring {
    Ring::new("max_count", "Counter")
}

fn reopen(echo: &Echo) -> Echo {
    Echo::open("diary.dat".to_string(), echo.diary_since(0), echo.log_since(0)).unwrap()
}

#[test]
fn arrow() {
    let mut echo = Echo::new("echo-test-".to_string());
    let old_chamber = echo.chamber().unwrap();
    let mut write = WriteScope::new();
    write.arrow(Target::Number(3));
    echo.write(write).unwrap();
    let new_chamber = echo.chamber().unwrap();
    assert_eq!(new_chamber.arrow_or_none(), Ok(Some(Target::Number(3))));
    assert_eq!(old_chamber.arrow_or_none(), Ok(None));
}

#[test]
fn reconnect() {
    let first = {
        let mut echo = Echo::new("echo-test-".to_string());
        let mut write = WriteScope::new();
        write.arrow(Target::Number(3));
        write.arrow(Target::Number(10));
        echo.write(write).unwrap();
        echo
    };
    let echo = reopen(&first);
    let chamber = echo.chamber().unwrap();
    assert_eq!(chamber.arrow_or_none(), Ok(Some(Target::Number(10))));
}

#[test]
fn double_reconnect() {
    let first = {
        let mut echo = Echo::new("echo-test-".to_string());
        let mut write = WriteScope::new();
        write.arrow(Target::Number(3));
        echo.write(write).unwrap();
        echo
    };
    let second = {
        let mut echo = reopen(&first);
        let mut write = WriteScope::new();
        write.arrow(Target::Number(10));
        echo.write(write).unwrap();
        echo
    };
    let echo = reopen(&second);
    let chamber = echo.chamber().unwrap();
    assert_eq!(chamber.arrow_or_none(), Ok(Some(Target::Number(10))));
}

#[test]
fn single_fact_single_reload() {
    let mut echo = Echo::new("db".to_string());
    let mut write = WriteScope::new();
    write.arrow(Target::Number(3));
    let chamber = echo.write(write).unwrap();
    assert_eq!(chamber.target_at(&ObjectId::Unit, &Ring::Unit), Ok(Some(Target::Number(3))));
    let again = reopen(&echo);
    assert_eq!(again.current_roots(), echo.current_roots());
    assert_eq!(
        again.chamber().unwrap().target_at(&ObjectId::Unit, &Ring::Unit),
        Ok(Some(Target::Number(3)))
    );
}

#[test]
fn attributes() {
    let mut echo = Echo::new("echo-test-".to_string());
    let mut shout = WriteScope::new();
    let max = max_count();
    let cnt = count();
    shout.attributes(vec![(&max, Target::Number(100)), (&cnt, Target::Number(0))]);
    echo.write(shout).unwrap();
    let chamber = echo.chamber().unwrap();
    assert_eq!(chamber.target_at(&ObjectId::Unit, &max), Ok(Some(Target::Number(100))));
    assert_eq!(chamber.target_at(&ObjectId::Unit, &cnt), Ok(Some(Target::Number(0))));
}

#[test]
fn object_attributes() {
    let dracula = ObjectId::String("Dracula".into());
    let mut echo = Echo::new("echo-test-".to_string());
    let mut shout = WriteScope::new();
    let cnt = count();
    shout.write_object_properties(&dracula, vec![(&cnt, Target::Number(3))]);
    echo.write(shout).unwrap();
    let chamber = echo.chamber().unwrap();
    assert_eq!(chamber.target_at(&dracula, &cnt), Ok(Some(Target::Number(3))));
    assert_eq!(chamber.target_at(&dracula, &max_count()), Ok(None));
    assert_eq!(chamber.target_at(&ObjectId::Unit, &cnt), Ok(None));
}

#[test]
fn two_rings_one_object() {
    let dracula = ObjectId::new("Dracula");
    let mut echo = Echo::new("db".to_string());
    let mut shout = WriteScope::new();
    let cnt = count();
    let max = max_count();
    shout.write_object_properties(&dracula, vec![(&cnt, Target::Number(3))]);
    shout.write_object_properties(&dracula, vec![(&max, Target::Number(100))]);
    let chamber = echo.write(shout).unwrap();
    assert_eq!(chamber.target_at(&dracula, &cnt), Ok(Some(Target::Number(3))));
    assert_eq!(chamber.target_at(&dracula, &max), Ok(Some(Target::Number(100))));
}

#[test]
fn two_objects_one_ring_are_found_from_the_ring() {
    let dracula = ObjectId::new("Dracula");
    let bo_peep = ObjectId::new("Bo Peep");
    let mut echo = Echo::new("db".to_string());
    let mut shout = WriteScope::new();
    let cnt = count();
    shout.write_object_properties(&dracula, vec![(&cnt, Target::Number(3))]);
    shout.write_object_properties(&bo_peep, vec![(&cnt, Target::Number(7))]);
    let chamber = echo.write(shout).unwrap();
    assert_eq!(
        chamber.bearer_at(&cnt, &dracula),
        Ok(Some((dracula.clone(), Target::Number(3))))
    );
    assert_eq!(
        chamber.bearer_at(&cnt, &bo_peep),
        Ok(Some((bo_peep.clone(), Target::Number(7))))
    );
    assert_eq!(chamber.bearer_at(&cnt, &ObjectId::Unit), Ok(None));
    assert_eq!(chamber.bearer_at(&max_count(), &dracula), Ok(None));
}

#[test]
fn objects_with_ring() {
    let dracula = ObjectId::new("Dracula");
    let bo_peep = ObjectId::new("Bo Peep");
    let mut echo = Echo::new("echo-test-".to_string());
    let mut shout = WriteScope::new();
    let cnt = count();
    shout.write_object_properties(&dracula, vec![(&cnt, Target::Number(3))]);
    shout.write_object_properties(&bo_peep, vec![(&cnt, Target::Number(7))]);
    echo.write(shout).unwrap();
    let mut objects = echo.chamber().unwrap().objects_with_ring(&cnt).unwrap();
    objects.sort();
    assert_eq!(objects, vec![bo_peep, dracula]);
    assert_eq!(echo.chamber().unwrap().objects_with_ring(&max_count()), Ok(vec![]));
}

#[test]
fn open_refuses_unsound_tries() {
    let mut echo = Echo::new("db".to_string());
    let mut write = WriteScope::new();
    write.arrow(Target::Number(3));
    echo.write(write).unwrap();
    let diary = echo.diary_since(0);
    let log = echo.log_since(0);
    let again = Echo::open("db".to_string(), diary.clone(), log.clone()).unwrap();
    assert_eq!(again.current_roots(), echo.current_roots());
    assert_eq!(again.chamber().unwrap().arrow_or_none(), Ok(Some(Target::Number(3))));
    // a stored root that no longer points to a frame
    let (a, _) = echo.current_roots();
    let mut broken = diary.clone();
    let inner_root_at = a.pos as usize - 8;
    broken[inner_root_at + 3] = 0xff;
    broken[inner_root_at + 2] = 0xff;
    assert!(matches!(
        Echo::open("db".to_string(), broken, log.clone()),
        Err(Error::CorruptRootsLog)
    ));
    // a key that does not sit where its chunks lead
    let mut moved = diary.clone();
    moved[a.pos as usize + 3] ^= 1;
    assert!(matches!(
        Echo::open("db".to_string(), moved, log),
        Err(Error::CorruptRootsLog)
    ));
}

#[test]
fn values_and_checks_of_a_trie() {
    let mut writer = Writer::new();
    let mut trie = Hamt::new(Root::zero());
    assert_eq!(trie.values(writer.as_slice()), Ok(vec![]));
    assert!(trie.check(writer.as_slice()));
    trie.put(37, 70, &mut writer).unwrap();
    trie.put(5, 50, &mut writer).unwrap();
    trie.put(4, 40, &mut writer).unwrap();
    assert_eq!(trie.values(writer.as_slice()), Ok(vec![40, 50, 70]));
    assert!(trie.check(writer.as_slice()));
    let short = &writer.as_slice()[..writer.end_size() - 1];
    assert!(!trie.check(short));
    assert_eq!(trie.values(short), Err(Error::InvariantViolation));
    assert!(!Hamt::new(Root { pos: 0x8000_0000, mask: 0 }).check(writer.as_slice()));
}

#[test]
fn overwrite_in_a_later_batch() {
    let mut echo = Echo::new("db".to_string());
    let mut first = WriteScope::new();
    first.arrow(Target::Number(3));
    let before = echo.write(first).unwrap();
    let mut second = WriteScope::new();
    second.arrow(Target::Text("ten".to_string()));
    let after = echo.write(second).unwrap();
    assert_eq!(before.arrow_or_none(), Ok(Some(Target::Number(3))));
    assert_eq!(after.arrow_or_none(), Ok(Some(Target::Text("ten".to_string()))));
    assert_eq!(
        reopen(&echo).chamber().unwrap().arrow_or_none(),
        Ok(Some(Target::Text("ten".to_string())))
    );
}

#[test]
fn what_a_batch_does_not_write_stays_readable() {
    let dracula = ObjectId::new("Dracula");
    let cnt = count();
    let max = max_count();
    let mut echo = Echo::new("db".to_string());
    let mut first = WriteScope::new();
    first.write_object_properties(&dracula, vec![(&cnt, Target::Number(3))]);
    first.attributes(vec![(&cnt, Target::Number(1))]);
    echo.write(first).unwrap();
    let mut second = WriteScope::new();
    second.write_object_properties(&dracula, vec![(&max, Target::Number(9))]);
    let chamber = echo.write(second).unwrap();
    assert_eq!(chamber.target_at(&dracula, &cnt), Ok(Some(Target::Number(3))));
    assert_eq!(chamber.target_at(&ObjectId::Unit, &cnt), Ok(Some(Target::Number(1))));
    assert_eq!(chamber.target_at(&dracula, &max), Ok(Some(Target::Number(9))));
}

#[test]
fn commit_appends_one_pair_and_covers_its_roots() {
    let mut echo = Echo::new("db".to_string());
    assert_eq!(echo.log_len(), 0);
    assert_eq!(echo.diary_len(), 0);
    assert_eq!(echo.current_roots(), (Root::zero(), Root::zero()));
    let mut write = WriteScope::new();
    write.arrow(Target::Number(3));
    let chamber = echo.write(write).unwrap();
    assert_eq!(echo.log_len(), 16);
    let (a, b) = echo.current_roots();
    assert_eq!(chamber.current_roots(), (a, b));
    let mut pair = a.to_bytes().unwrap();
    pair.extend(b.to_bytes().unwrap());
    assert_eq!(echo.log_since(0), pair);
    assert!(a.pos as usize + 8 * a.mask.count_ones() as usize <= echo.diary_len());
    assert_eq!(b.pos as usize + 8 * b.mask.count_ones() as usize, echo.diary_len());
    // target, trie frame, stored root, index frame; pair, and the same again
    assert_eq!(echo.diary_len(), 9 + 8 + 8 + 8 + 10 + 8 + 8 + 8);
}

#[test]
fn empty_batch_commits_the_same_roots() {
    let mut echo = Echo::new("db".to_string());
    let chamber = echo.write(WriteScope::new()).unwrap();
    assert_eq!(chamber.arrow_or_none(), Ok(None));
    assert_eq!(echo.log_len(), 16);
    assert_eq!(echo.diary_len(), 0);
    assert_eq!(echo.log_since(0), vec![0u8; 16]);
}

#[test]
fn batch_with_a_fact_without_target_stops_the_engine() {
    let mut echo = Echo::new("db".to_string());
    let mut first = WriteScope::new();
    first.arrow(Target::Number(3));
    echo.write(first).unwrap();
    let diary_len = echo.diary_len();
    let roots = echo.current_roots();
    let good = Say {
        sayer: Sayer::Unit,
        object: ObjectId::new("a"),
        ring: Ring::Unit,
        point: Point::Unit,
        target: Some(Target::Number(1)),
    };
    let bad = Say { target: None, ..good.clone() };
    let speech = Speech { says: vec![good, bad] };
    assert!(matches!(echo.write_speech(&speech), Err(Error::InvariantViolation)));
    assert!(echo.is_stopped());
    assert_eq!(echo.diary_len(), diary_len);
    assert_eq!(echo.log_len(), 16);
    assert_eq!(echo.current_roots(), roots);
    assert!(matches!(echo.chamber(), Err(Error::QueueClosed)));
    let mut more = WriteScope::new();
    more.arrow(Target::Number(4));
    assert!(matches!(echo.write(more), Err(Error::QueueClosed)));
    let again = reopen(&echo);
    assert!(!again.is_stopped());
    assert_eq!(again.chamber().unwrap().arrow_or_none(), Ok(Some(Target::Number(3))));
    assert_eq!(
        again.chamber().unwrap().target_at(&ObjectId::new("a"), &Ring::Unit),
        Ok(None)
    );
}

#[test]
fn crash_leftovers_are_ignored_on_open() {
    let mut echo = Echo::new("db".to_string());
    let mut write = WriteScope::new();
    write.arrow(Target::Number(3));
    echo.write(write).unwrap();
    let mut diary = echo.diary_since(0);
    diary.extend(vec![0xffu8; 37]);
    let mut log = echo.log_since(0);
    log.extend(vec![0u8, 0, 1, 0, 0, 0, 0]);
    let again = Echo::open("db".to_string(), diary, log).unwrap();
    assert_eq!(again.current_roots(), echo.current_roots());
    assert_eq!(again.log_len(), 16);
    assert_eq!(again.diary_len(), echo.diary_len() + 37);
    assert_eq!(again.chamber().unwrap().arrow_or_none(), Ok(Some(Target::Number(3))));
}

#[test]
fn pair_whose_frames_never_reached_the_diary_is_dropped() {
    let mut echo = Echo::new("db".to_string());
    let mut first = WriteScope::new();
    first.arrow(Target::Number(3));
    echo.write(first).unwrap();
    let committed = echo.diary_since(0);
    let roots = echo.current_roots();
    let mut second = WriteScope::new();
    second.arrow(Target::Number(4));
    echo.write(second).unwrap();
    let again = Echo::open("db".to_string(), committed, echo.log_since(0)).unwrap();
    assert_eq!(again.current_roots(), roots);
    assert_eq!(again.log_len(), 16);
    assert_eq!(again.chamber().unwrap().arrow_or_none(), Ok(Some(Target::Number(3))));
}

struct Counter {
    name: String,
    count: u64,
}

impl Writable for Counter {
    fn to_says(&self) -> Vec<Say> {
        vec![Say {
            sayer: Sayer::Unit,
            object: ObjectId::new(&self.name),
            ring: count(),
            point: Point::Unit,
            target: Some(Target::Number(self.count)),
        }]
    }
}

#[test]
fn scope_gathers_facts_in_order() {
    let mut scope = WriteScope::new();
    scope.arrow(Target::Number(1));
    let counter = Counter { name: "card-counter".to_string(), count: 7 };
    scope.writable(&counter);
    let dracula = ObjectId::new("Dracula");
    let cnt = count();
    let max = max_count();
    scope.write_object_properties(
        &dracula,
        vec![(&cnt, Target::Number(3)), (&max, Target::Number(56))],
    );
    scope.says(vec![]);
    assert_eq!(scope.says.len(), 4);
    assert_eq!(
        scope.says[0],
        Say {
            sayer: Sayer::Unit,
            object: ObjectId::Unit,
            ring: Ring::Unit,
            point: Point::Unit,
            target: Some(Target::Number(1))
        }
    );
    assert_eq!(scope.says[1], counter.to_says()[0]);
    assert_eq!(scope.says[2].object, dracula);
    assert_eq!(scope.says[2].ring, cnt);
    assert_eq!(scope.says[3].ring, max);
    assert_eq!(scope.says[3].target, Some(Target::Number(56)));
    let mut echo = Echo::new("x-holder".to_string());
    let chamber = echo.write(scope).unwrap();
    assert_eq!(
        chamber.target_at(&ObjectId::new("card-counter"), &cnt),
        Ok(Some(Target::Number(7)))
    );
}

#[test]
fn new_object_ids_carry_the_prefix() {
    let scope = WriteScope::new();
    match scope.new_object_id("obj-") {
        ObjectId::String(name) => {
            assert!(name.starts_with("obj-"));
            assert!(name["obj-".len()..].parse::<u32>().is_ok());
        }
        ObjectId::Unit => panic!("a new object has a name"),
    }
}

#[test]
fn targets() {
    assert_eq!(Target::Number(7).as_number(), 7);
    assert_eq!(Target::Text("seven".to_string()).as_str(), "seven");
    assert_eq!(Target::Text("x".to_string()).duplicate(), Target::Text("x".to_string()));
}

#[test]
fn errors_have_messages() {
    assert_eq!(Error::Io.message(), "i/o failure");
    assert_eq!(Error::CorruptRootsLog.message(), "corrupt roots log");
    assert_eq!(Error::InvariantViolation.message(), "invariant violation");
    assert_eq!(Error::QueueClosed.message(), "queue closed");
}
