//! The engine: the one writer that owns the diary, the two indexes and the
//! roots log.
//!
//! A batch of facts is stored as a whole or not at all. For each fact the
//! engine stores the target and puts its place into the index from objects
//! to rings, then stores the object with the target and puts that place
//! into the index from rings to objects. When every fact is stored it moves
//! the committed size of the diary to the end of what was written and, only
//! then, appends the new pair of roots to the roots log.

use vstd::prelude::*;
use crate::bits::TOP_BIT;
use crate::codec::{
    hash_bytes,
    key_hash,
    name_fits,
    object_bytes,
    object_name,
    object_payload,
    read_object,
    read_target,
    ring_bytes,
    ring_fits,
    ring_payload,
    target_at,
    target_bytes,
    target_end,
    target_fits,
    target_payload,
    name_at,
    name_end,
};
use crate::diary::{is_prefix, lemma_prefix_extend, lemma_prefix_refl, lemma_prefix_trans, resized};
use crate::diary::{Diary, Reader, Writer};
use crate::error::Error;
use crate::fact::{ObjectId, Ring, Say, Speech, Target};
use crate::hamt::{root_bytes, Hamt, Root};
use crate::index::{get_nested, holds, index_wf, kept_after, nested, nested_lookup, put_nested};
use crate::index::{
    lemma_holds_extend,
    lemma_index_extend,
    lemma_kept_start,
    lemma_kept_step,
    lemma_zero_index,
};
use crate::roots_log::{covered, good_len, pair_ok, tail_roots, RootsLog, PAIR_LEN};
use crate::roots_log::lemma_recover_after_crash;
use crate::index::{inner_root, lemma_unwritten_kept, lemma_written_found};
use crate::codec::{lemma_pair_stored, lemma_target_stored};
use crate::hamt::{wf_at, lookup, root_at, root_of, lemma_zero_root};
use crate::write_scope::WriteScope;
use crate::scan::{check_index, readable_at, values_of};

verus! {

/// Bytes that the two indexes can take for one fact at most.
pub const SAY_INDEX_MAX: usize = 7184;

/// The key of a fact's object in the indexes.
pub open spec fn object_key(say: Say) -> u32 {
    key_hash(object_bytes(say.object))
}

/// The key of a fact's ring in the indexes.
pub open spec fn ring_key(say: Say) -> u32 {
    key_hash(ring_bytes(say.ring))
}

/// The bytes stored for a fact in the index from rings to objects: the
/// object, then the target.
pub open spec fn pair_bytes_of(say: Say) -> Seq<u8> {
    object_bytes(say.object) + target_bytes(say.target->Some_0)
}

/// A fact can be stored when it has a target and none of its object, ring
/// and target holds a text that is too long.
pub open spec fn storable(say: Say) -> bool {
    &&& say.target is Some
    &&& name_fits(object_name(say.object))
    &&& ring_fits(say.ring)
    &&& target_fits(say.target->Some_0)
}

/// The room that the engine sets aside in the diary for one fact: its
/// target, its object with the target, and the most that the indexes can
/// take.
pub open spec fn say_cost(say: Say) -> nat {
    target_bytes(say.target->Some_0).len() + pair_bytes_of(say).len() + SAY_INDEX_MAX as nat
}

/// The room that the engine sets aside for a batch.
pub open spec fn speech_cost(says: Seq<Say>) -> nat
    decreases says.len(),
{
    if says.len() == 0 {
        0
    } else {
        speech_cost(says.drop_last()) + say_cost(says.last())
    }
}

/// Every fact of the batch can be stored.
pub open spec fn speech_storable(says: Seq<Say>) -> bool {
    forall|i: int| 0 <= i < says.len() ==> storable(#[trigger] says[i])
}

/// The entries that a batch adds to the index from objects to rings.
pub open spec fn object_items(says: Seq<Say>) -> Seq<(u32, u32, Seq<u8>)> {
    Seq::new(
        says.len(),
        |i: int| (object_key(says[i]), ring_key(says[i]), target_bytes(says[i].target->Some_0)),
    )
}

/// The entries that a batch adds to the index from rings to objects.
pub open spec fn ring_items(says: Seq<Say>) -> Seq<(u32, u32, Seq<u8>)> {
    Seq::new(says.len(), |i: int| (ring_key(says[i]), object_key(says[i]), pair_bytes_of(says[i])))
}

/// One fact made ready for the indexes: its keys and the bytes to store.
pub struct Prepared {
    pub object_key: u32,
    pub ring_key: u32,
    pub target: Vec<u8>,
    pub pair: Vec<u8>,
}

impl Prepared {
    /// The prepared fact is made from `say`.
    pub open spec fn of(&self, say: Say) -> bool {
        &&& self.object_key == object_key(say)
        &&& self.ring_key == ring_key(say)
        &&& self.target@ == target_bytes(say.target->Some_0)
        &&& self.pair@ == pair_bytes_of(say)
    }
}

/// Makes one fact ready for the indexes.
pub fn prepare(say: &Say) -> (r: Result<Prepared, Error>)
    ensures
        r is Ok <==> storable(*say),
        r is Ok ==> r->Ok_0.of(*say),
        r is Err ==> r->Err_0 == Error::InvariantViolation,
{
    let value = match &say.target {
        None => {
            return Err(Error::InvariantViolation);
        },
        Some(value) => value,
    };
    let object = match object_payload(&say.object) {
        Ok(bytes) => bytes,
        Err(e) => {
            return Err(e);
        },
    };
    let ring = match ring_payload(&say.ring) {
        Ok(bytes) => bytes,
        Err(e) => {
            return Err(e);
        },
    };
    let target = match target_payload(value) {
        Ok(bytes) => bytes,
        Err(e) => {
            return Err(e);
        },
    };
    let object_key = hash_bytes(object.as_slice());
    let ring_key = hash_bytes(ring.as_slice());
    let mut pair = object;
    let mut i: usize = 0;
    while i < target.len()
        invariant
            i <= target@.len(),
            pair@ == object_bytes(say.object) + target@.subrange(0, i as int),
        decreases target@.len() - i,
    {
        pair.push(target[i]);
        assert(pair@ =~= object_bytes(say.object) + target@.subrange(0, i + 1));
        i = i + 1;
    }
    assert(target@.subrange(0, target@.len() as int) =~= target@);
    Ok(Prepared { object_key, ring_key, target, pair })
}

/// Makes a batch ready for the indexes, if every fact can be stored and the
/// room for the batch is no more than `room`.
pub fn prepare_all(says: &Vec<Say>, room: usize) -> (r: Result<Vec<Prepared>, Error>)
    ensures
        r is Ok <==> speech_storable(says@) && speech_cost(says@) <= room,
        r is Ok ==> r->Ok_0@.len() == says@.len() && forall|i: int|
            0 <= i < says@.len() ==> (#[trigger] r->Ok_0@[i]).of(says@[i]),
        r is Err ==> r->Err_0 == Error::InvariantViolation,
{
    let mut items: Vec<Prepared> = Vec::new();
    let mut used: usize = 0;
    let mut i: usize = 0;
    while i < says.len()
        invariant
            i <= says@.len(),
            items@.len() == i,
            used == speech_cost(says@.take(i as int)),
            used <= room,
            speech_storable(says@.take(i as int)),
            forall|j: int| 0 <= j < i ==> (#[trigger] items@[j]).of(says@[j]),
        decreases says@.len() - i,
    {
        let ghost before = says@.take(i as int);
        let ghost after = says@.take(i + 1);
        proof {
            assert(after.drop_last() =~= before);
            assert(after.last() == says@[i as int]);
            lemma_cost_grows(says@, i + 1);
            lemma_storable_take(says@, i + 1);
        }
        let item = match prepare(&says[i]) {
            Ok(item) => item,
            Err(e) => {
                return Err(e);
            },
        };
        let left = room - used;
        if item.target.len() > left || item.pair.len() > left - item.target.len() || SAY_INDEX_MAX
            > left - item.target.len() - item.pair.len() {
            return Err(Error::InvariantViolation);
        }
        used = used + item.target.len() + item.pair.len() + SAY_INDEX_MAX;
        items.push(item);
        assert forall|j: int| 0 <= j < after.len() implies storable(#[trigger] after[j]) by {
            if j < i {
                assert(storable(before[j]));
            }
        }
        i = i + 1;
    }
    assert(says@.take(says@.len() as int) =~= says@);
    Ok(items)
}

/// The room for the first facts of a batch is no more than the room for the
/// batch.
pub proof fn lemma_cost_grows(says: Seq<Say>, n: int)
    requires
        0 <= n <= says.len(),
    ensures
        speech_cost(says.take(n)) <= speech_cost(says),
    decreases says.len() - n,
{
    if n < says.len() {
        lemma_cost_grows(says, n + 1);
        assert(says.take(n + 1).drop_last() =~= says.take(n));
    } else {
        assert(says.take(n) =~= says);
    }
}

/// If a batch can be stored then so can its first facts.
pub proof fn lemma_storable_take(says: Seq<Say>, n: int)
    requires
        0 <= n <= says.len(),
    ensures
        speech_storable(says) ==> speech_storable(says.take(n)),
{
    if speech_storable(says) {
        assert forall|i: int| 0 <= i < says.take(n).len() implies storable(
            #[trigger] says.take(n)[i],
        ) by {
            assert(storable(says[i]));
        }
    }
}

/// No fact of `says` is about the object with key `o` and the ring with
/// key `r`.
pub open spec fn unwritten(says: Seq<Say>, o: u32, r: u32) -> bool {
    forall|i: int|
        0 <= i < says.len() ==> !(object_key(#[trigger] says[i]) == o && ring_key(says[i]) == r)
}

/// From one version to the next, what the batch in between did not write
/// stays readable: where no fact of the batch is about an object and a
/// ring, the later version keeps for them what the earlier one kept, in
/// both indexes, and the bytes of the earlier version are the beginning of
/// the bytes of the later one.
pub proof fn lemma_commit_keeps_unwritten(before: Echo, after: Echo, says: Seq<Say>, o: u32, r: u32)
    requires
        is_prefix(before.committed(), after.committed()),
        kept_after(
            before.committed(),
            before.roots().0,
            object_items(says),
            after.committed(),
            after.roots().0,
        ),
        kept_after(
            before.committed(),
            before.roots().1,
            ring_items(says),
            after.committed(),
            after.roots().1,
        ),
        unwritten(says, o, r),
    ensures
        after.arrow(o, r) == before.arrow(o, r),
        after.bearer(r, o) == before.bearer(r, o),
        forall|p: u32, bytes: Seq<u8>|
            holds(before.committed(), p, bytes) ==> #[trigger] holds(after.committed(), p, bytes),
{
    assert forall|i: int| 0 <= i < object_items(says).len() implies !((
    #[trigger] object_items(says)[i]).0 == o && object_items(says)[i].1 == r) by {
        assert(!(object_key(says[i]) == o && ring_key(says[i]) == r));
    }
    assert forall|i: int| 0 <= i < ring_items(says).len() implies !((#[trigger] ring_items(
        says,
    )[i]).0 == r && ring_items(says)[i].1 == o) by {
        assert(!(object_key(says[i]) == o && ring_key(says[i]) == r));
    }
    lemma_unwritten_kept(
        before.committed(),
        before.roots().0,
        object_items(says),
        after.committed(),
        after.roots().0,
        o,
        r,
    );
    lemma_unwritten_kept(
        before.committed(),
        before.roots().1,
        ring_items(says),
        after.committed(),
        after.roots().1,
        r,
        o,
    );
    assert forall|p: u32, bytes: Seq<u8>| holds(before.committed(), p, bytes) implies #[trigger] holds(
        after.committed(),
        p,
        bytes,
    ) by {
        lemma_holds_extend(before.committed(), after.committed(), p, bytes);
    }
}

/// A version shows what the batch before it wrote. `says[j]` is the last
/// fact of the batch about its object and its ring. A lookup under their
/// keys in the index from objects to rings finds a place at which the
/// target of that fact can be read.
pub proof fn lemma_commit_shows_target(
    d0: Seq<u8>,
    root0: Root,
    d: Seq<u8>,
    root: Root,
    says: Seq<Say>,
    j: int,
)
    requires
        index_wf(d, root),
        kept_after(d0, root0, object_items(says), d, root),
        0 <= j < says.len(),
        storable(says[j]),
        forall|i: int|
            j < i < says.len() ==> !(object_key(#[trigger] says[i]) == object_key(says[j])
                && ring_key(says[i]) == ring_key(says[j])),
    ensures
        nested_lookup(d, root, object_key(says[j]), ring_key(says[j])) matches Ok(Some(p))
            && target_at(d, p as int) && d.subrange(p as int, target_end(d, p as int))
            == target_bytes(says[j].target->Some_0),
{
    let items = object_items(says);
    assert forall|i: int| j < i < items.len() implies !((#[trigger] items[i]).0 == items[j].0
        && items[i].1 == items[j].1) by {
        assert(!(object_key(says[i]) == object_key(says[j]) && ring_key(says[i]) == ring_key(
            says[j],
        )));
    }
    lemma_written_found(d0, root0, items, d, root, j);
    let p = nested_lookup(d, root, items[j].0, items[j].1)->Ok_0->Some_0;
    lemma_target_stored(d, p as int, says[j].target->Some_0);
}

/// A version shows what the batch before it wrote. `says[j]` is the last
/// fact of the batch about its object and its ring. A lookup under their
/// keys in the index from rings to objects finds a place at which the
/// object of that fact and, after it, its target can be read.
pub proof fn lemma_commit_shows_bearer(
    d0: Seq<u8>,
    root0: Root,
    d: Seq<u8>,
    root: Root,
    says: Seq<Say>,
    j: int,
)
    requires
        index_wf(d, root),
        kept_after(d0, root0, ring_items(says), d, root),
        0 <= j < says.len(),
        storable(says[j]),
        forall|i: int|
            j < i < says.len() ==> !(object_key(#[trigger] says[i]) == object_key(says[j])
                && ring_key(says[i]) == ring_key(says[j])),
    ensures
        nested_lookup(d, root, ring_key(says[j]), object_key(says[j])) matches Ok(Some(q))
            && name_at(d, q as int) && d.subrange(q as int, name_end(d, q as int))
            == object_bytes(says[j].object) && target_at(d, name_end(d, q as int)) && d.subrange(
            name_end(d, q as int),
            target_end(d, name_end(d, q as int)),
        ) == target_bytes(says[j].target->Some_0),
{
    let items = ring_items(says);
    assert forall|i: int| j < i < items.len() implies !((#[trigger] items[i]).0 == items[j].0
        && items[i].1 == items[j].1) by {
        assert(!(object_key(says[i]) == object_key(says[j]) && ring_key(says[i]) == ring_key(
            says[j],
        )));
    }
    lemma_written_found(d0, root0, items, d, root, j);
    let q = nested_lookup(d, root, items[j].0, items[j].1)->Ok_0->Some_0;
    lemma_pair_stored(d, q as int, says[j].object, says[j].target->Some_0);
}

/// In a sound engine every root ends within the committed bytes: the two
/// current roots, and the root of every trie that an index keeps.
pub proof fn lemma_roots_within_watermark(e: Echo, k: u32)
    requires
        e.wf(),
    ensures
        covered(e.roots().0, e.watermark()),
        covered(e.roots().1, e.watermark()),
        covered(inner_root(e.committed(), e.roots().0, k), e.watermark()),
        covered(inner_root(e.committed(), e.roots().1, k), e.watermark()),
{
    let d = e.committed();
    lemma_zero_root(d, Seq::empty(), 0);
    assert(wf_at(d, inner_root(d, e.roots().0, k), Seq::empty())) by {
        match lookup(d, e.roots().0, k) {
            Ok(Some(p)) => {},
            _ => {},
        }
    }
    assert(wf_at(d, inner_root(d, e.roots().1, k), Seq::empty())) by {
        match lookup(d, e.roots().1, k) {
            Ok(Some(p)) => {},
            _ => {},
        }
    }
}

/// After a crash the engine comes back as the last commit left it. `e` is
/// the engine after its last commit. A crash can leave bytes in the diary
/// file past the committed ones, `junk`, and less than a pair at the end
/// of the roots log, `torn`. Opening the two files cuts `torn` off, finds
/// the roots of the last commit, and shows under every pair of keys what
/// the engine showed.
pub proof fn lemma_crash_recovery(e: Echo, junk: Seq<u8>, torn: Seq<u8>, a: u32, b: u32)
    requires
        e.wf(),
        torn.len() < PAIR_LEN,
    ensures
        good_len(e.log() + torn, (e.committed() + junk).len()) == e.log().len(),
        (e.log() + torn).subrange(0, e.log().len() as int) == e.log(),
        tail_roots(e.log() + torn, (e.committed() + junk).len()) == e.roots(),
        index_wf(e.committed() + junk, e.roots().0),
        index_wf(e.committed() + junk, e.roots().1),
        nested(e.committed() + junk, e.roots().0, a, b) == e.arrow(a, b),
        nested(e.committed() + junk, e.roots().1, a, b) == e.bearer(a, b),
        resized(e.committed() + junk, e.watermark()) == e.committed(),
{
    let d = e.committed();
    let log = e.log();
    lemma_prefix_extend(d, junk);
    lemma_index_extend(d, d + junk, e.roots().0);
    lemma_index_extend(d, d + junk, e.roots().1);
    crate::diary::lemma_resized_drops_tail(d, junk);
    if log.len() > 0 {
        let k = log.len() / PAIR_LEN as nat - 1;
        assert(PAIR_LEN * k == log.len() - PAIR_LEN);
        assert(pair_ok(log, k as int, d.len()));
    }
    lemma_recover_after_crash(log, torn, d.len(), (d + junk).len());
}

/// Stores one prepared fact and updates both indexes. It returns the place
/// of the stored target and the place of the stored object with the target.
fn store_say(
    object_rings: &mut Hamt,
    ring_objects: &mut Hamt,
    writer: &mut Writer,
    item: &Prepared,
) -> (r: Result<(u32, u32), Error>)
    requires
        index_wf(old(writer)@, old(object_rings).root),
        index_wf(old(writer)@, old(ring_objects).root),
        item.object_key < TOP_BIT,
        item.ring_key < TOP_BIT,
        old(writer)@.len() + item.target@.len() + item.pair@.len() + SAY_INDEX_MAX <= TOP_BIT,
    ensures
        r is Ok,
        is_prefix(old(writer)@, final(writer)@),
        final(writer)@.len() <= old(writer)@.len() + item.target@.len() + item.pair@.len()
            + SAY_INDEX_MAX,
        index_wf(final(writer)@, final(object_rings).root),
        index_wf(final(writer)@, final(ring_objects).root),
        holds(final(writer)@, r->Ok_0.0, item.target@),
        holds(final(writer)@, r->Ok_0.1, item.pair@),
        forall|a: u32, b: u32| #[trigger]
            nested(final(writer)@, final(object_rings).root, a, b) == if a == item.object_key && b
                == item.ring_key {
                Some(r->Ok_0.0)
            } else {
                nested(old(writer)@, old(object_rings).root, a, b)
            },
        forall|a: u32, b: u32| #[trigger]
            nested(final(writer)@, final(ring_objects).root, a, b) == if a == item.ring_key && b
                == item.object_key {
                Some(r->Ok_0.1)
            } else {
                nested(old(writer)@, old(ring_objects).root, a, b)
            },
{
    let ghost d0 = writer@;
    let ghost or0 = object_rings.root;
    let ghost ro0 = ring_objects.root;
    let target_at = match writer.write_blob(item.target.as_slice()) {
        Ok(at) => at,
        Err(e) => {
            return Err(e);
        },
    };
    let ghost d1 = writer@;
    proof {
        lemma_prefix_extend(d0, item.target@);
        lemma_index_extend(d0, d1, or0);
        assert(d1.subrange(target_at as int, target_at + item.target@.len()) =~= item.target@);
    }
    match put_nested(object_rings, item.object_key, item.ring_key, target_at, writer) {
        Ok(()) => {},
        Err(e) => {
            return Err(e);
        },
    }
    let ghost d2 = writer@;
    let ghost or2 = object_rings.root;
    let pair_at = match writer.write_blob(item.pair.as_slice()) {
        Ok(at) => at,
        Err(e) => {
            return Err(e);
        },
    };
    let ghost d3 = writer@;
    proof {
        lemma_prefix_extend(d2, item.pair@);
        lemma_prefix_trans(d0, d1, d2);
        lemma_prefix_trans(d0, d2, d3);
        lemma_index_extend(d0, d3, ro0);
        assert(d3.subrange(pair_at as int, pair_at + item.pair@.len()) =~= item.pair@);
    }
    match put_nested(ring_objects, item.ring_key, item.object_key, pair_at, writer) {
        Ok(()) => {},
        Err(e) => {
            return Err(e);
        },
    }
    proof {
        let d4 = writer@;
        lemma_prefix_trans(d0, d3, d4);
        lemma_prefix_trans(d2, d3, d4);
        lemma_prefix_trans(d1, d2, d4);
        lemma_index_extend(d2, d4, or2);
        lemma_holds_extend(d1, d4, target_at, item.target@);
        lemma_holds_extend(d3, d4, pair_at, item.pair@);
        assert forall|a: u32, b: u32| #[trigger]
            nested(d4, or2, a, b) == if a == item.object_key && b == item.ring_key {
                Some(target_at)
            } else {
                nested(d0, or0, a, b)
            } by {
            assert(nested(d4, or2, a, b) == nested(d2, or2, a, b));
            assert(nested(d1, or0, a, b) == nested(d0, or0, a, b));
        }
        assert forall|a: u32, b: u32| #[trigger]
            nested(d4, ring_objects.root, a, b) == if a == item.ring_key && b == item.object_key {
                Some(pair_at)
            } else {
                nested(d0, ro0, a, b)
            } by {
            assert(nested(d3, ro0, a, b) == nested(d0, ro0, a, b));
        }
    }
    Ok((target_at, pair_at))
}

/// The engine.
pub struct Echo {
    diary: Diary,
    writer: Writer,
    object_rings: Hamt,
    ring_objects: Hamt,
    roots_log: RootsLog,
    stopped: bool,
}

/// A snapshot: the roots of one version and the bytes that were committed
/// when it was taken. Later commits do not change what it shows.
pub struct Chamber {
    object_rings: Hamt,
    ring_objects: Hamt,
    reader: Reader,
}

impl Chamber {
    /// The committed bytes that the snapshot reads.
    pub closed spec fn committed(&self) -> Seq<u8> {
        self.reader@
    }

    /// The roots of the snapshot's version: of the index from objects to
    /// rings, and of the index from rings to objects.
    pub closed spec fn roots(&self) -> (Root, Root) {
        (self.object_rings.root, self.ring_objects.root)
    }

    /// The place of the target that the snapshot shows for the object with
    /// key `o` and the ring with key `r`.
    pub open spec fn arrow(&self, o: u32, r: u32) -> Result<Option<u32>, Error> {
        nested_lookup(self.committed(), self.roots().0, o, r)
    }

    /// The place of the object, stored with its target, that the snapshot
    /// shows for the ring with key `r` and the object with key `o`.
    pub open spec fn bearer(&self, r: u32, o: u32) -> Result<Option<u32>, Error> {
        nested_lookup(self.committed(), self.roots().1, r, o)
    }

    /// The roots of the snapshot's version.
    pub fn current_roots(&self) -> (r: (Root, Root))
        ensures
            r == self.roots(),
    {
        (self.object_rings.root, self.ring_objects.root)
    }

    /// The target of `ring` at `object`, if the snapshot shows one.
    pub fn target_at(&self, object: &ObjectId, ring: &Ring) -> (r: Result<Option<Target>, Error>)
        ensures
            !name_fits(object_name(*object)) || !ring_fits(*ring) ==> r == Err::<
                Option<Target>,
                Error,
            >(Error::InvariantViolation),
            name_fits(object_name(*object)) && ring_fits(*ring) ==> match self.arrow(
                key_hash(object_bytes(*object)),
                key_hash(ring_bytes(*ring)),
            ) {
                Err(e) => r == Err::<Option<Target>, Error>(e),
                Ok(None) => r == Ok::<Option<Target>, Error>(None),
                Ok(Some(p)) => if target_at(self.committed(), p as int) {
                    r matches Ok(Some(t)) && target_bytes(t) == self.committed().subrange(
                        p as int,
                        target_end(self.committed(), p as int),
                    )
                } else {
                    r == Err::<Option<Target>, Error>(Error::InvariantViolation)
                },
            },
    {
        let stored_object = match object_payload(object) {
            Ok(bytes) => bytes,
            Err(e) => {
                return Err(e);
            },
        };
        let stored_ring = match ring_payload(ring) {
            Ok(bytes) => bytes,
            Err(e) => {
                return Err(e);
            },
        };
        let o = hash_bytes(stored_object.as_slice());
        let r = hash_bytes(stored_ring.as_slice());
        let source = self.reader.as_slice();
        match get_nested(&self.object_rings, o, r, source) {
            Err(e) => Err(e),
            Ok(None) => Ok(None),
            Ok(Some(p)) => match read_target(source, p as usize) {
                Ok((target, _)) => Ok(Some(target)),
                Err(e) => Err(e),
            },
        }
    }

    /// The target of the unit ring at the unit object, if the snapshot
    /// shows one.
    pub fn arrow_or_none(&self) -> (r: Result<Option<Target>, Error>)
        ensures
            match self.arrow(
                key_hash(object_bytes(ObjectId::Unit)),
                key_hash(ring_bytes(Ring::Unit)),
            ) {
                Err(e) => r == Err::<Option<Target>, Error>(e),
                Ok(None) => r == Ok::<Option<Target>, Error>(None),
                Ok(Some(p)) => if target_at(self.committed(), p as int) {
                    r matches Ok(Some(t)) && target_bytes(t) == self.committed().subrange(
                        p as int,
                        target_end(self.committed(), p as int),
                    )
                } else {
                    r == Err::<Option<Target>, Error>(Error::InvariantViolation)
                },
            },
    {
        self.target_at(&ObjectId::Unit, &Ring::Unit)
    }

    /// The objects that bear `ring`, in the order in which the index holds
    /// them.
    pub fn objects_with_ring(&self, ring: &Ring) -> (r: Result<Vec<ObjectId>, Error>)
        ensures
            !ring_fits(*ring) ==> r is Err && r->Err_0 == Error::InvariantViolation,
            ring_fits(*ring) ==> match lookup(
                self.committed(),
                self.roots().1,
                key_hash(ring_bytes(*ring)),
            ) {
                Err(e) => r is Err && r->Err_0 == e,
                Ok(None) => r is Ok && r->Ok_0@.len() == 0,
                Ok(Some(p)) => {
                    let d = self.committed();
                    let places = values_of(d, root_of(d, p as int));
                    if root_at(d, p as int) && readable_at(d, root_of(d, p as int), 0) && forall|
                        j: int,
                    |
                        0 <= j < places.len() ==> name_at(d, #[trigger] places[j] as int) {
                        r is Ok && r->Ok_0@.len() == places.len() && forall|j: int|
                            0 <= j < places.len() ==> object_bytes(#[trigger] r->Ok_0@[j])
                                == d.subrange(places[j] as int, name_end(d, places[j] as int))
                    } else {
                        r is Err && r->Err_0 == Error::InvariantViolation
                    }
                },
            },
    {
        let stored_ring = match ring_payload(ring) {
            Ok(bytes) => bytes,
            Err(e) => {
                return Err(e);
            },
        };
        let key = hash_bytes(stored_ring.as_slice());
        let source = self.reader.as_slice();
        let place = match self.ring_objects.get(key, source) {
            Ok(Some(place)) => place,
            Ok(None) => {
                return Ok(Vec::new());
            },
            Err(e) => {
                return Err(e);
            },
        };
        let inner = match Root::read(source, place as usize) {
            Ok(inner) => inner,
            Err(e) => {
                return Err(e);
            },
        };
        let places = match Hamt::new(inner).values(source) {
            Ok(places) => places,
            Err(e) => {
                return Err(e);
            },
        };
        let ghost d = source@;
        let mut objects: Vec<ObjectId> = Vec::new();
        let mut i: usize = 0;
        while i < places.len()
            invariant
                i <= places@.len(),
                d == source@,
                d == self.committed(),
                places@ == values_of(d, root_of(d, place as int)),
                key == key_hash(ring_bytes(*ring)),
                lookup(d, self.roots().1, key) == Ok::<Option<u32>, Error>(Some(place)),
                objects@.len() == i,
                forall|j: int| 0 <= j < i ==> name_at(d, #[trigger] places@[j] as int),
                forall|j: int|
                    0 <= j < i ==> object_bytes(#[trigger] objects@[j]) == d.subrange(
                        places@[j] as int,
                        name_end(d, places@[j] as int),
                    ),
            decreases places@.len() - i,
        {
            match read_object(source, places[i] as usize) {
                Ok((object, _)) => {
                    objects.push(object);
                },
                Err(e) => {
                    assert(!name_at(d, places@[i as int] as int));
                    return Err(e);
                },
            }
            i = i + 1;
        }
        Ok(objects)
    }

    /// The object that bears `ring` under the key of `object`, with the
    /// target it has there, if the snapshot shows one.
    pub fn bearer_at(&self, ring: &Ring, object: &ObjectId) -> (r: Result<
        Option<(ObjectId, Target)>,
        Error,
    >)
        ensures
            !name_fits(object_name(*object)) || !ring_fits(*ring) ==> r == Err::<
                Option<(ObjectId, Target)>,
                Error,
            >(Error::InvariantViolation),
            name_fits(object_name(*object)) && ring_fits(*ring) ==> match self.bearer(
                key_hash(ring_bytes(*ring)),
                key_hash(object_bytes(*object)),
            ) {
                Err(e) => r == Err::<Option<(ObjectId, Target)>, Error>(e),
                Ok(None) => r == Ok::<Option<(ObjectId, Target)>, Error>(None),
                Ok(Some(p)) => {
                    let d = self.committed();
                    if name_at(d, p as int) && target_at(d, name_end(d, p as int)) {
                        r matches Ok(Some(found)) && object_bytes(found.0) == d.subrange(
                            p as int,
                            name_end(d, p as int),
                        ) && target_bytes(found.1) == d.subrange(
                            name_end(d, p as int),
                            target_end(d, name_end(d, p as int)),
                        )
                    } else {
                        r == Err::<Option<(ObjectId, Target)>, Error>(Error::InvariantViolation)
                    }
                },
            },
    {
        let stored_object = match object_payload(object) {
            Ok(bytes) => bytes,
            Err(e) => {
                return Err(e);
            },
        };
        let stored_ring = match ring_payload(ring) {
            Ok(bytes) => bytes,
            Err(e) => {
                return Err(e);
            },
        };
        let o = hash_bytes(stored_object.as_slice());
        let r = hash_bytes(stored_ring.as_slice());
        let source = self.reader.as_slice();
        match get_nested(&self.ring_objects, r, o, source) {
            Err(e) => Err(e),
            Ok(None) => Ok(None),
            Ok(Some(p)) => {
                let (found, next) = match read_object(source, p as usize) {
                    Ok(read) => read,
                    Err(e) => {
                        return Err(e);
                    },
                };
                match read_target(source, next) {
                    Ok((target, _)) => Ok(Some((found, target))),
                    Err(e) => Err(e),
                }
            },
        }
    }
}

impl Echo {
    /// The committed bytes of the diary.
    pub closed spec fn committed(&self) -> Seq<u8> {
        self.writer@
    }

    /// The committed size that the diary's handle records.
    pub closed spec fn watermark(&self) -> nat {
        self.diary.file_size as nat
    }

    /// The current roots: of the index from objects to rings, and of the
    /// index from rings to objects.
    pub closed spec fn roots(&self) -> (Root, Root) {
        (self.object_rings.root, self.ring_objects.root)
    }

    /// The bytes of the roots log.
    pub closed spec fn log(&self) -> Seq<u8> {
        self.roots_log@
    }

    /// Whether the engine has stopped.
    pub closed spec fn stopped(&self) -> bool {
        self.stopped
    }

    /// The roots log is sound and its last pair is the current roots.
    pub closed spec fn log_current(&self) -> bool {
        self.roots_log.wf() && self.roots_log.current() == self.roots()
    }

    /// The engine is sound: nothing is written past the committed size,
    /// both indexes are sound in the committed bytes, and the last pair of
    /// the roots log is the current roots.
    pub open spec fn wf(&self) -> bool {
        &&& self.committed().len() == self.watermark()
        &&& index_wf(self.committed(), self.roots().0)
        &&& index_wf(self.committed(), self.roots().1)
        &&& self.log_current()
    }

    /// The place of the target that the engine keeps for the object with
    /// key `o` and the ring with key `r`.
    pub open spec fn arrow(&self, o: u32, r: u32) -> Option<u32> {
        nested(self.committed(), self.roots().0, o, r)
    }

    /// The place of the object, stored with its target, that the engine
    /// keeps for the ring with key `r` and the object with key `o`.
    pub open spec fn bearer(&self, r: u32, o: u32) -> Option<u32> {
        nested(self.committed(), self.roots().1, r, o)
    }

    /// An engine on an empty diary and an empty roots log.
    pub fn new(file_path: String) -> (e: Echo)
        ensures
            e.wf(),
            !e.stopped(),
            e.committed() == Seq::<u8>::empty(),
            e.log() == Seq::<u8>::empty(),
            e.roots() == crate::roots_log::zero_pair(),
    {
        let diary = Diary::load(file_path, 0);
        let writer = Writer::new();
        proof {
            lemma_zero_index(writer@);
        }
        Echo {
            diary,
            writer,
            object_rings: Hamt::new(Root::zero()),
            ring_objects: Hamt::new(Root::zero()),
            roots_log: RootsLog::empty(),
            stopped: false,
        }
    }

    /// Reads the state of an engine from the contents of its two files. The
    /// engine is sound if the indexes under the roots that the roots log
    /// gives are sound in the diary.
    fn load(file_path: String, diary_contents: Vec<u8>, roots_contents: Vec<u8>) -> (e: Echo)
        ensures
            !e.stopped(),
            e.committed() == diary_contents@,
            e.log() == roots_contents@.subrange(
                0,
                crate::roots_log::good_len(roots_contents@, diary_contents@.len()) as int,
            ),
            e.roots() == crate::roots_log::tail_roots(roots_contents@, diary_contents@.len()),
            index_wf(e.committed(), e.roots().0) && index_wf(e.committed(), e.roots().1)
                ==> e.wf(),
    {
        let diary = Diary::load(file_path, diary_contents.len());
        let ghost given = diary_contents@;
        let writer = diary.writer(diary_contents);
        assert(writer@ =~= given);
        let roots_log = RootsLog::new(roots_contents, diary.len_in_bytes());
        let (a, b) = roots_log.roots();
        Echo {
            diary,
            writer,
            object_rings: Hamt::new(a),
            ring_objects: Hamt::new(b),
            roots_log,
            stopped: false,
        }
    }

    /// Opens the engine on the contents of its two files. Every byte of the
    /// diary file counts as committed. The roots log is cut back to its
    /// longest run of whole pairs whose last pair the diary covers, and
    /// that pair gives the current roots. The engine is opened only if the
    /// indexes under those roots are sound in the diary.
    pub fn open(file_path: String, diary_contents: Vec<u8>, roots_contents: Vec<u8>) -> (r:
        Result<Echo, Error>)
        ensures
            r is Ok <==> index_wf(
                diary_contents@,
                tail_roots(roots_contents@, diary_contents@.len()).0,
            ) && index_wf(diary_contents@, tail_roots(roots_contents@, diary_contents@.len()).1),
            r is Ok ==> {
                &&& r->Ok_0.wf()
                &&& !r->Ok_0.stopped()
                &&& r->Ok_0.committed() == diary_contents@
                &&& r->Ok_0.log() == roots_contents@.subrange(
                    0,
                    good_len(roots_contents@, diary_contents@.len()) as int,
                )
                &&& r->Ok_0.roots() == tail_roots(roots_contents@, diary_contents@.len())
            },
            r is Err ==> r->Err_0 == Error::CorruptRootsLog,
    {
        let echo = Echo::load(file_path, diary_contents, roots_contents);
        let source = echo.writer.as_slice();
        if check_index(echo.object_rings.root, source) && check_index(
            echo.ring_objects.root,
            source,
        ) {
            Ok(echo)
        } else {
            Err(Error::CorruptRootsLog)
        }
    }

    /// The committed size of the diary.
    pub fn diary_len(&self) -> (n: usize)
        ensures
            n == self.committed().len(),
    {
        self.writer.end_size()
    }

    /// The length of the roots log.
    pub fn log_len(&self) -> (n: usize)
        ensures
            n == self.log().len(),
    {
        self.roots_log.len()
    }

    /// The committed bytes of the diary from offset `from` on.
    pub fn diary_since(&self, from: usize) -> (tail: Vec<u8>)
        ensures
            from <= self.committed().len() ==> tail@ == self.committed().subrange(
                from as int,
                self.committed().len() as int,
            ),
            from > self.committed().len() ==> tail@ == Seq::<u8>::empty(),
    {
        self.writer.written_since(from)
    }

    /// The bytes of the roots log from offset `from` on.
    pub fn log_since(&self, from: usize) -> (tail: Vec<u8>)
        ensures
            from <= self.log().len() ==> tail@ == self.log().subrange(
                from as int,
                self.log().len() as int,
            ),
            from > self.log().len() ==> tail@ == Seq::<u8>::empty(),
    {
        self.roots_log.written_since(from)
    }

    /// The current roots.
    pub fn current_roots(&self) -> (r: (Root, Root))
        ensures
            r == self.roots(),
    {
        (self.object_rings.root, self.ring_objects.root)
    }

    /// Whether the engine has stopped.
    pub fn is_stopped(&self) -> (b: bool)
        ensures
            b == self.stopped(),
    {
        self.stopped
    }

    /// Stores the facts that `scope` has gathered, as one batch, and
    /// commits it.
    pub fn write(&mut self, scope: WriteScope) -> (r: Result<Chamber, Error>)
        requires
            old(self).wf(),
        ensures
            final(self).wf(),
            r is Ok <==> !old(self).stopped() && speech_storable(scope.says@) && old(
                self,
            ).committed().len() + speech_cost(scope.says@) <= TOP_BIT,
            r is Ok ==> {
                &&& !final(self).stopped()
                &&& is_prefix(old(self).committed(), final(self).committed())
                &&& final(self).committed().len() <= old(self).committed().len() + speech_cost(
                    scope.says@,
                )
                &&& final(self).log() == old(self).log() + root_bytes(final(self).roots().0)
                    + root_bytes(final(self).roots().1)
                &&& kept_after(
                    old(self).committed(),
                    old(self).roots().0,
                    object_items(scope.says@),
                    final(self).committed(),
                    final(self).roots().0,
                )
                &&& kept_after(
                    old(self).committed(),
                    old(self).roots().1,
                    ring_items(scope.says@),
                    final(self).committed(),
                    final(self).roots().1,
                )
                &&& r->Ok_0.committed() == final(self).committed()
                &&& r->Ok_0.roots() == final(self).roots()
            },
            r is Err ==> {
                &&& final(self).stopped()
                &&& final(self).committed() == old(self).committed()
                &&& final(self).roots() == old(self).roots()
                &&& final(self).log() == old(self).log()
                &&& r->Err_0 == if old(self).stopped() {
                    Error::QueueClosed
                } else {
                    Error::InvariantViolation
                }
            },
    {
        let speech = Speech { says: scope.says };
        self.write_speech(&speech)
    }

    /// A snapshot of the current version. A stopped engine gives none.
    pub fn chamber(&self) -> (r: Result<Chamber, Error>)
        ensures
            r is Ok <==> !self.stopped(),
            r is Ok ==> r->Ok_0.committed() == self.committed() && r->Ok_0.roots() == self.roots(),
            r is Err ==> r->Err_0 == Error::QueueClosed,
    {
        if self.stopped {
            return Err(Error::QueueClosed);
        }
        Ok(
            Chamber {
                object_rings: self.object_rings,
                ring_objects: self.ring_objects,
                reader: self.writer.reader(),
            },
        )
    }

    /// Stores a batch of facts and commits it. The batch is refused, and
    /// the engine stops, when a fact cannot be stored or when the room for
    /// the batch would reach past what a slot can address. A stopped engine
    /// refuses every batch. A refused batch changes nothing that can be
    /// read.
    pub fn write_speech(&mut self, speech: &Speech) -> (r: Result<Chamber, Error>)
        requires
            old(self).wf(),
        ensures
            final(self).wf(),
            r is Ok <==> !old(self).stopped() && speech_storable(speech.says@) && old(
                self,
            ).committed().len() + speech_cost(speech.says@) <= TOP_BIT,
            r is Ok ==> {
                &&& !final(self).stopped()
                &&& is_prefix(old(self).committed(), final(self).committed())
                &&& final(self).committed().len() <= old(self).committed().len() + speech_cost(
                    speech.says@,
                )
                &&& final(self).log() == old(self).log() + root_bytes(final(self).roots().0)
                    + root_bytes(final(self).roots().1)
                &&& kept_after(
                    old(self).committed(),
                    old(self).roots().0,
                    object_items(speech.says@),
                    final(self).committed(),
                    final(self).roots().0,
                )
                &&& kept_after(
                    old(self).committed(),
                    old(self).roots().1,
                    ring_items(speech.says@),
                    final(self).committed(),
                    final(self).roots().1,
                )
                &&& r->Ok_0.committed() == final(self).committed()
                &&& r->Ok_0.roots() == final(self).roots()
            },
            r is Err ==> {
                &&& final(self).stopped()
                &&& final(self).committed() == old(self).committed()
                &&& final(self).roots() == old(self).roots()
                &&& final(self).log() == old(self).log()
                &&& r->Err_0 == if old(self).stopped() {
                    Error::QueueClosed
                } else {
                    Error::InvariantViolation
                }
            },
    {
        if self.stopped {
            return Err(Error::QueueClosed);
        }
        let start = self.writer.end_size();
        if start > TOP_BIT as usize {
            self.stopped = true;
            return Err(Error::InvariantViolation);
        }
        let items = match prepare_all(&speech.says, TOP_BIT as usize - start) {
            Ok(items) => items,
            Err(e) => {
                self.stopped = true;
                return Err(e);
            },
        };
        let ghost d0 = self.writer@;
        let ghost or0 = self.object_rings.root;
        let ghost ro0 = self.ring_objects.root;
        let ghost says = speech.says@;
        let mut object_rings = self.object_rings;
        let mut ring_objects = self.ring_objects;
        proof {
            lemma_prefix_refl(d0);
            lemma_kept_start(d0, or0);
            lemma_kept_start(d0, ro0);
            assert(object_items(says.take(0)) =~= Seq::empty());
            assert(ring_items(says.take(0)) =~= Seq::empty());
        }
        let mut i: usize = 0;
        while i < items.len()
            invariant
                i <= items@.len(),
                items@.len() == says.len(),
                says == speech.says@,
                forall|j: int| 0 <= j < says.len() ==> (#[trigger] items@[j]).of(says[j]),
                speech_cost(says) + d0.len() <= TOP_BIT,
                self.writer@.len() <= d0.len() + speech_cost(says.take(i as int)),
                is_prefix(d0, self.writer@),
                index_wf(self.writer@, object_rings.root),
                index_wf(self.writer@, ring_objects.root),
                kept_after(d0, or0, object_items(says.take(i as int)), self.writer@, object_rings.root),
                kept_after(d0, ro0, ring_items(says.take(i as int)), self.writer@, ring_objects.root),
                self.diary == old(self).diary,
                self.roots_log == old(self).roots_log,
                self.object_rings == old(self).object_rings,
                self.ring_objects == old(self).ring_objects,
                self.stopped == old(self).stopped,
            decreases items@.len() - i,
        {
            let ghost d = self.writer@;
            let ghost or = object_rings.root;
            let ghost ro = ring_objects.root;
            let ghost say = says[i as int];
            proof {
                assert(items@[i as int].of(say));
                assert(says.take(i + 1).drop_last() =~= says.take(i as int));
                lemma_cost_grows(says, i + 1);
                crate::codec::lemma_key_hash_bound(object_bytes(say.object));
                crate::codec::lemma_key_hash_bound(ring_bytes(say.ring));
            }
            let places = match store_say(
                &mut object_rings,
                &mut ring_objects,
                &mut self.writer,
                &items[i],
            ) {
                Ok(places) => places,
                Err(e) => {
                    return Err(e);
                },
            };
            proof {
                let e = self.writer@;
                lemma_prefix_trans(d0, d, e);
                let oi = (object_key(say), ring_key(say), target_bytes(say.target->Some_0));
                let ri = (ring_key(say), object_key(say), pair_bytes_of(say));
                lemma_kept_step(
                    d0,
                    or0,
                    object_items(says.take(i as int)),
                    d,
                    or,
                    oi,
                    e,
                    object_rings.root,
                    places.0,
                );
                lemma_kept_step(
                    d0,
                    ro0,
                    ring_items(says.take(i as int)),
                    d,
                    ro,
                    ri,
                    e,
                    ring_objects.root,
                    places.1,
                );
                assert(object_items(says.take(i as int)).push(oi) =~= object_items(
                    says.take(i + 1),
                ));
                assert(ring_items(says.take(i as int)).push(ri) =~= ring_items(says.take(i + 1)));
            }
            i = i + 1;
        }
        assert(says.take(says.len() as int) =~= says);
        self.diary.commit(&self.writer);
        match self.roots_log.write_roots(object_rings.root, ring_objects.root) {
            Ok(()) => {},
            Err(e) => {
                return Err(e);
            },
        }
        self.object_rings = object_rings;
        self.ring_objects = ring_objects;
        let chamber = Chamber {
            object_rings: self.object_rings,
            ring_objects: self.ring_objects,
            reader: self.writer.reader(),
        };
        Ok(chamber)
    }
}

} // verus!
