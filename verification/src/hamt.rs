//! A persistent hash trie whose frames live in the diary.
//!
//! A trie is known by its root, a reference to its top frame. A lookup
//! follows the 5-bit chunks of the key's hash from frame to frame. An update
//! never touches stored bytes: it appends a new copy of every frame on the
//! key's path and gives back the root of the new version, which shares all
//! other frames with the old one.

use vstd::prelude::*;
use crate::bits::{bit_of, chunk, chunk_at, popcount, MAX_DEPTH, TOP_BIT};
use crate::bits::{
    lemma_chunk_bound,
    lemma_chunks_determine_hash,
    lemma_has_bit_zero,
    lemma_or_basics,
};
use crate::bits::lemma_count_below_bound;
use crate::diary::{
    is_prefix,
    lemma_prefix_extend,
    lemma_prefix_refl,
    lemma_prefix_subrange,
    lemma_prefix_trans,
    Writer,
};
use crate::error::Error;
use crate::frame::{frame_fits, stored_slot, stored_slots, Frame};
use crate::frame::{
    lemma_frame_bytes_len,
    lemma_mask_empty,
    lemma_mask_update,
    lemma_stored_mask,
    lemma_stored_slot_prefix,
};
use crate::slot::{decode, lemma_decode_encode, Slot, SLOT_LEN};
use crate::slot_index::{SlotIndex, SLOT_COUNT};

verus! {

/// Bytes that a stored root takes.
pub const ROOT_LEN: usize = 8;

/// The reference to the top frame of a trie. The root with both words zero
/// stands for the empty trie.
#[derive(Debug, Copy, Clone, PartialEq, Eq, Structural)]
pub struct Root {
    pub pos: u32,
    pub mask: u32,
}

/// A trie, known by its root.
#[derive(Debug, Copy, Clone, PartialEq, Eq, Structural)]
pub struct Hamt {
    pub root: Root,
}

/// What a lookup of `key` finds in the trie stored in `d` under `root`, when
/// the frame of `root` is indexed by the chunk for `depth`. A frame that
/// does not lie within `d`, or a reference below the deepest level, is a
/// broken invariant.
pub open spec fn lookup_at(d: Seq<u8>, root: Root, key: u32, depth: nat) -> Result<
    Option<u32>,
    Error,
>
    decreases 7 - depth,
{
    if depth > 6 || !frame_fits(d, root.pos as int, root.mask) {
        Err(Error::InvariantViolation)
    } else {
        match stored_slot(d, root.pos as int, root.mask, chunk(key, depth) as nat) {
            Slot::Empty => Ok(None),
            Slot::Value { key: k, value } => if k == key {
                Ok(Some(value))
            } else {
                Ok(None)
            },
            Slot::Ref { pos, mask } => lookup_at(d, Root { pos, mask }, key, depth + 1),
        }
    }
}

/// What a lookup of `key` finds in the trie stored in `d` under `root`.
pub open spec fn lookup(d: Seq<u8>, root: Root, key: u32) -> Result<Option<u32>, Error> {
    lookup_at(d, root, key, 0)
}

/// The keys and values of the trie stored in `d` under `root`.
pub open spec fn entries(d: Seq<u8>, root: Root) -> Map<u32, u32> {
    Map::new(
        |k: u32| lookup(d, root, k) matches Ok(Some(_)),
        |k: u32| lookup(d, root, k)->Ok_0->Some_0,
    )
}

/// Whether the first chunks of `key` are the entries of `path`.
pub open spec fn on_path(key: u32, path: Seq<u32>) -> bool {
    forall|j: int| 0 <= j < path.len() ==> chunk(key, j as nat) == #[trigger] path[j]
}

/// The first `depth` chunks of `key`.
pub open spec fn key_path(key: u32, depth: nat) -> Seq<u32> {
    Seq::new(depth, |j: int| chunk(key, j as nat))
}

/// Whether the trie under `root` is sound in `d`, when `path` leads to its
/// top frame: every frame lies within `d`, every key sits where its chunks
/// lead, and no frame lies deeper than the hash has chunks.
pub open spec fn wf_at(d: Seq<u8>, root: Root, path: Seq<u32>) -> bool
    decreases 7 - path.len(),
{
    &&& path.len() <= 6
    &&& root.pos < TOP_BIT
    &&& frame_fits(d, root.pos as int, root.mask)
    &&& forall|i: nat|
        i < SLOT_COUNT ==> match #[trigger] stored_slot(d, root.pos as int, root.mask, i) {
            Slot::Empty => true,
            Slot::Value { key, .. } => on_path(key, path.push(i as u32)),
            Slot::Ref { pos, mask } => path.len() < 6 && wf_at(
                d,
                Root { pos, mask },
                path.push(i as u32),
            ),
        }
}

/// The mask of a frame that holds `a` and `b` at `depth`.
pub open spec fn split_mask(a: u32, b: u32, depth: nat) -> u32 {
    bit_of(chunk(a, depth)) | bit_of(chunk(b, depth))
}

/// Bytes stored below the frame at `depth` that parts `a` from `b`: a frame
/// with one reference for each further level on which their chunks are the
/// same, and the frame that holds both.
pub open spec fn split_below(a: u32, b: u32, depth: nat) -> int
    decreases 7 - depth,
{
    if depth >= 6 || chunk(a, depth) != chunk(b, depth) {
        0
    } else {
        split_below(a, b, depth + 1) + SLOT_LEN * popcount(split_mask(a, b, depth + 1))
    }
}

/// Bytes that a put of `key` stores before it stores the new copy of the
/// frame of `root`: the new copies of the frames below it on the key's path
/// and, where the key meets another key, the frames that part the two.
pub open spec fn put_below(d: Seq<u8>, root: Root, key: u32, depth: nat) -> int
    decreases 7 - depth,
{
    if depth >= 6 {
        0
    } else {
        match stored_slot(d, root.pos as int, root.mask, chunk(key, depth) as nat) {
            Slot::Empty => 0,
            Slot::Value { key: k, .. } => if k == key {
                0
            } else {
                split_below(key, k, depth + 1) + SLOT_LEN * popcount(
                    split_mask(key, k, depth + 1),
                )
            },
            Slot::Ref { pos, mask } => put_below(d, Root { pos, mask }, key, depth + 1) + SLOT_LEN
                * popcount(mask | bit_of(chunk(key, depth + 1))),
        }
    }
}

/// What holds of the root `new` that a put of `key` and `value` gives for
/// the frame at `depth`, where the diary went from `d` to `e` and `root` was
/// the frame before.
pub open spec fn put_result(
    d: Seq<u8>,
    e: Seq<u8>,
    root: Root,
    new: Root,
    key: u32,
    value: u32,
    depth: nat,
) -> bool {
    &&& new.pos == d.len() + put_below(d, root, key, depth)
    &&& new.mask == root.mask | bit_of(chunk(key, depth))
    &&& e.len() == new.pos + SLOT_LEN * popcount(new.mask)
    &&& wf_at(e, new, key_path(key, depth))
    &&& forall|k: u32| #[trigger]
        lookup_at(e, new, k, depth) == if k == key {
            Ok::<Option<u32>, Error>(Some(value))
        } else {
            lookup_at(d, root, k, depth)
        }
}

/// What holds of the root `new` of the frames that part `a` from `b` at
/// `depth`, where the diary went from `d` to `e`.
pub open spec fn split_result(
    d: Seq<u8>,
    e: Seq<u8>,
    new: Root,
    a: u32,
    a_value: u32,
    b: u32,
    b_value: u32,
    depth: nat,
) -> bool {
    &&& new.pos == d.len() + split_below(a, b, depth)
    &&& new.mask == split_mask(a, b, depth)
    &&& e.len() == new.pos + SLOT_LEN * popcount(new.mask)
    &&& wf_at(e, new, key_path(a, depth))
    &&& forall|k: u32| #[trigger]
        lookup_at(e, new, k, depth) == if k == a {
            Ok::<Option<u32>, Error>(Some(a_value))
        } else if k == b {
            Ok::<Option<u32>, Error>(Some(b_value))
        } else {
            Ok::<Option<u32>, Error>(None)
        }
}

/// How a put of `value` under `key` changes what lookups find: the trie
/// under `root` in `d` becomes the trie under `new` in `e`, in which `key`
/// has `value` and every other key has what it had.
pub open spec fn put_step(d: Seq<u8>, root: Root, key: u32, value: u32, e: Seq<u8>, new: Root) -> bool {
    forall|k: u32| #[trigger]
        lookup(e, new, k) == if k == key {
            Ok::<Option<u32>, Error>(Some(value))
        } else {
            lookup(d, root, k)
        }
}

/// The value of the last pair in `puts` whose key is `key`.
pub open spec fn last_put(puts: Seq<(u32, u32)>, key: u32) -> Option<u32>
    decreases puts.len(),
{
    if puts.len() == 0 {
        None
    } else if puts.last().0 == key {
        Some(puts.last().1)
    } else {
        last_put(puts.drop_last(), key)
    }
}

/// A lookup in a sound trie does not fail.
pub proof fn lemma_wf_lookup_ok(d: Seq<u8>, root: Root, path: Seq<u32>, key: u32)
    requires
        wf_at(d, root, path),
    ensures
        lookup_at(d, root, key, path.len()) is Ok,
    decreases 7 - path.len(),
{
    lemma_chunk_bound(key, path.len());
    let i = chunk(key, path.len()) as nat;
    match stored_slot(d, root.pos as int, root.mask, i) {
        Slot::Ref { pos, mask } => {
            lemma_wf_lookup_ok(d, Root { pos, mask }, path.push(i as u32), key);
        },
        _ => {},
    }
}

/// After any run of puts that starts from the empty trie, a lookup finds
/// under each key the value of the last put under that key, and nothing
/// under a key that was never put. `roots[i]` and `diaries[i]` are the trie
/// and the diary before the put of `puts[i]`.
pub proof fn lemma_lookup_after_puts(
    diaries: Seq<Seq<u8>>,
    roots: Seq<Root>,
    puts: Seq<(u32, u32)>,
    key: u32,
)
    requires
        diaries.len() == puts.len() + 1,
        roots.len() == puts.len() + 1,
        roots[0] == (Root { pos: 0, mask: 0 }),
        forall|i: int|
            0 <= i < puts.len() ==> #[trigger] put_step(
                diaries[i],
                roots[i],
                puts[i].0,
                puts[i].1,
                diaries[i + 1],
                roots[i + 1],
            ),
    ensures
        lookup(diaries.last(), roots.last(), key) == Ok::<Option<u32>, Error>(last_put(puts, key)),
    decreases puts.len(),
{
    if puts.len() == 0 {
        lemma_zero_root(diaries[0], Seq::empty(), 0);
    } else {
        let n = puts.len() as int;
        let before = puts.drop_last();
        assert forall|i: int| 0 <= i < before.len() implies #[trigger] put_step(
            diaries.drop_last()[i],
            roots.drop_last()[i],
            before[i].0,
            before[i].1,
            diaries.drop_last()[i + 1],
            roots.drop_last()[i + 1],
        ) by {
            assert(put_step(
                diaries[i],
                roots[i],
                puts[i].0,
                puts[i].1,
                diaries[i + 1],
                roots[i + 1],
            ));
        }
        lemma_lookup_after_puts(diaries.drop_last(), roots.drop_last(), before, key);
        assert(put_step(
            diaries[n - 1],
            roots[n - 1],
            puts[n - 1].0,
            puts[n - 1].1,
            diaries[n],
            roots[n],
        ));
        assert(lookup(diaries[n], roots[n], key) == if key == puts[n - 1].0 {
            Ok::<Option<u32>, Error>(Some(puts[n - 1].1))
        } else {
            lookup(diaries[n - 1], roots[n - 1], key)
        });
    }
}

/// The stored bytes of a root: those of a reference slot.
pub open spec fn root_bytes(root: Root) -> Seq<u8> {
    (Slot::Ref { pos: root.pos, mask: root.mask }).encode()
}

/// Whether the eight bytes at `pos` in `d` are a stored root.
pub open spec fn root_at(d: Seq<u8>, pos: int) -> bool {
    &&& 0 <= pos
    &&& pos + ROOT_LEN <= d.len()
    &&& decode(d.subrange(pos, pos + ROOT_LEN)) is Ref
}

/// The root stored at `pos` in `d`.
pub open spec fn root_of(d: Seq<u8>, pos: int) -> Root {
    let slot = decode(d.subrange(pos, pos + ROOT_LEN));
    Root { pos: slot->Ref_pos, mask: slot->Ref_mask }
}

/// A root that was stored is read back as it was.
pub proof fn lemma_root_round_trip(d: Seq<u8>, pos: int, root: Root)
    requires
        root.pos < TOP_BIT,
        0 <= pos,
        pos + ROOT_LEN <= d.len(),
        d.subrange(pos, pos + ROOT_LEN) == root_bytes(root),
    ensures
        root_at(d, pos),
        root_of(d, pos) == root,
{
    lemma_decode_encode(Slot::Ref { pos: root.pos, mask: root.mask });
}

/// Bytes that one put can add to the diary at most: seven frames of 32
/// slots.
pub const PUT_MAX: usize = 1792;

/// The frames that part two keys take no more than a full frame for each
/// level below `depth`.
pub proof fn lemma_split_below_bound(a: u32, b: u32, depth: nat)
    requires
        depth <= 6,
    ensures
        0 <= split_below(a, b, depth) <= 256 * (6 - depth),
    decreases 7 - depth,
{
    if depth < 6 && chunk(a, depth) == chunk(b, depth) {
        lemma_split_below_bound(a, b, depth + 1);
        lemma_count_below_bound(split_mask(a, b, depth + 1), 32);
    }
}

/// What a put stores below the frame at `depth` is no more than a full
/// frame for each level below it.
pub proof fn lemma_put_below_bound(d: Seq<u8>, root: Root, key: u32, depth: nat)
    requires
        depth <= 6,
    ensures
        0 <= put_below(d, root, key, depth) <= 256 * (6 - depth),
    decreases 7 - depth,
{
    if depth < 6 {
        match stored_slot(d, root.pos as int, root.mask, chunk(key, depth) as nat) {
            Slot::Empty => {},
            Slot::Value { key: k, .. } => {
                if k != key {
                    lemma_split_below_bound(key, k, depth + 1);
                    lemma_count_below_bound(split_mask(key, k, depth + 1), 32);
                }
            },
            Slot::Ref { pos, mask } => {
                lemma_put_below_bound(d, Root { pos, mask }, key, depth + 1);
                lemma_count_below_bound(mask | bit_of(chunk(key, depth + 1)), 32);
            },
        }
    }
}

/// What a put would store below a frame of a sound trie does not change
/// when bytes are appended to the diary.
pub proof fn lemma_put_below_extend(d: Seq<u8>, e: Seq<u8>, root: Root, path: Seq<u32>, key: u32)
    requires
        is_prefix(d, e),
        wf_at(d, root, path),
    ensures
        put_below(e, root, key, path.len()) == put_below(d, root, key, path.len()),
    decreases 7 - path.len(),
{
    lemma_chunk_bound(key, path.len());
    let i = chunk(key, path.len()) as nat;
    lemma_stored_slot_prefix(d, e, root.pos as int, root.mask, i);
    if path.len() < 6 {
        match stored_slot(d, root.pos as int, root.mask, i) {
            Slot::Ref { pos, mask } => {
                lemma_put_below_extend(d, e, Root { pos, mask }, path.push(i as u32), key);
            },
            _ => {},
        }
    }
}

/// The reference that a lookup of `key` holds after `steps` descents from
/// the frame of `root` at `depth`, if the lookup gets that far.
pub open spec fn ref_on_path(d: Seq<u8>, root: Root, key: u32, depth: nat, steps: nat) -> Option<
    Root,
>
    decreases steps,
{
    if steps == 0 {
        Some(root)
    } else {
        match stored_slot(d, root.pos as int, root.mask, chunk(key, depth) as nat) {
            Slot::Ref { pos, mask } => ref_on_path(
                d,
                Root { pos, mask },
                key,
                depth + 1,
                (steps - 1) as nat,
            ),
            _ => None,
        }
    }
}

/// Every reference that a lookup in a sound trie can meet points to a
/// frame that ends within the diary: its place and eight bytes for each
/// bit of its mask do not reach past the diary's length.
pub proof fn lemma_refs_within_diary(
    d: Seq<u8>,
    root: Root,
    path: Seq<u32>,
    key: u32,
    steps: nat,
)
    requires
        wf_at(d, root, path),
    ensures
        ref_on_path(d, root, key, path.len(), steps) matches Some(r) ==> r.pos + SLOT_LEN
            * popcount(r.mask) <= d.len(),
    decreases steps,
{
    if steps > 0 {
        lemma_chunk_bound(key, path.len());
        let i = chunk(key, path.len()) as nat;
        match stored_slot(d, root.pos as int, root.mask, i) {
            Slot::Ref { pos, mask } => {
                lemma_refs_within_diary(
                    d,
                    Root { pos, mask },
                    path.push(i as u32),
                    key,
                    (steps - 1) as nat,
                );
            },
            _ => {},
        }
    }
}

/// A stored root reads the same in every diary that begins with the one it
/// was stored in.
pub proof fn lemma_root_prefix(d: Seq<u8>, e: Seq<u8>, pos: int)
    requires
        is_prefix(d, e),
        root_at(d, pos),
    ensures
        root_at(e, pos),
        root_of(e, pos) == root_of(d, pos),
{
    lemma_prefix_subrange(d, e, pos, pos + ROOT_LEN);
}

/// The path of a key to one level is its path to the level above and the
/// chunk for that level.
pub proof fn lemma_key_path_step(key: u32, depth: nat)
    ensures
        key_path(key, depth).push(chunk(key, depth)) == key_path(key, depth + 1),
        on_path(key, key_path(key, depth + 1)),
{
    assert(key_path(key, depth).push(chunk(key, depth)) =~= key_path(key, depth + 1));
}

/// A sound trie stays sound, and every lookup in it gives the same, when
/// bytes are appended to the diary.
pub proof fn lemma_extend(d: Seq<u8>, e: Seq<u8>, root: Root, path: Seq<u32>)
    requires
        is_prefix(d, e),
        wf_at(d, root, path),
    ensures
        wf_at(e, root, path),
        forall|k: u32| #[trigger] lookup_at(e, root, k, path.len()) == lookup_at(d, root, k, path.len()),
    decreases 7 - path.len(),
{
    let pos = root.pos as int;
    assert forall|i: nat| i < SLOT_COUNT implies #[trigger] stored_slot(e, pos, root.mask, i)
        == stored_slot(d, pos, root.mask, i) && (match stored_slot(d, pos, root.mask, i) {
        Slot::Ref { pos: p, mask: m } => wf_at(e, Root { pos: p, mask: m }, path.push(i as u32))
            && forall|k: u32| #[trigger]
            lookup_at(e, Root { pos: p, mask: m }, k, path.len() + 1) == lookup_at(
                d,
                Root { pos: p, mask: m },
                k,
                path.len() + 1,
            ),
        _ => true,
    }) by {
        lemma_stored_slot_prefix(d, e, pos, root.mask, i);
        match stored_slot(d, pos, root.mask, i) {
            Slot::Ref { pos: p, mask: m } => {
                lemma_extend(d, e, Root { pos: p, mask: m }, path.push(i as u32));
            },
            _ => {},
        }
    }
    lemma_stored_slot_prefix(d, e, pos, root.mask, 0);
    assert forall|k: u32| #[trigger] lookup_at(e, root, k, path.len()) == lookup_at(d, root, k, path.len()) by {
        lemma_chunk_bound(k, path.len());
        let i = chunk(k, path.len()) as nat;
        assert(stored_slot(e, pos, root.mask, i) == stored_slot(d, pos, root.mask, i));
        match stored_slot(d, pos, root.mask, i) {
            Slot::Ref { pos: p, mask: m } => {
                let child = Root { pos: p, mask: m };
                assert(lookup_at(e, child, k, path.len() + 1) == lookup_at(
                    d,
                    child,
                    k,
                    path.len() + 1,
                ));
            },
            _ => {},
        }
    }
}

/// The empty trie is sound in every diary and holds no key.
pub proof fn lemma_zero_root(d: Seq<u8>, path: Seq<u32>, depth: nat)
    requires
        path.len() <= 6,
        depth <= 6,
    ensures
        wf_at(d, Root { pos: 0, mask: 0 }, path),
        forall|k: u32| #[trigger]
            lookup_at(d, Root { pos: 0, mask: 0 }, k, depth) == Ok::<Option<u32>, Error>(None),
{
    crate::bits::lemma_count_zero(32);
    assert forall|i: nat| i < SLOT_COUNT implies stored_slot(d, 0, 0, i) is Empty by {
        lemma_has_bit_zero(i as u32);
    }
    assert forall|k: u32| #[trigger]
        lookup_at(d, Root { pos: 0, mask: 0 }, k, depth) == Ok::<Option<u32>, Error>(None) by {
        lemma_chunk_bound(k, depth);
        assert(stored_slot(d, 0, 0, chunk(k, depth) as nat) is Empty);
    }
}

/// What a lookup finds in a frame whose slots are known.
pub proof fn lemma_lookup_in_frame(e: Seq<u8>, root: Root, slots: Seq<Slot>, k: u32, depth: nat)
    requires
        depth <= 6,
        frame_fits(e, root.pos as int, root.mask),
        stored_slots(e, root.pos as int, root.mask) == slots,
    ensures
        chunk(k, depth) < SLOT_COUNT,
        lookup_at(e, root, k, depth) == (match slots[chunk(k, depth) as int] {
            Slot::Empty => Ok::<Option<u32>, Error>(None),
            Slot::Value { key, value } => if key == k {
                Ok::<Option<u32>, Error>(Some(value))
            } else {
                Ok::<Option<u32>, Error>(None)
            },
            Slot::Ref { pos, mask } => lookup_at(e, Root { pos, mask }, k, depth + 1),
        }),
{
    lemma_chunk_bound(k, depth);
    let i = chunk(k, depth) as int;
    assert(stored_slots(e, root.pos as int, root.mask)[i] == stored_slot(
        e,
        root.pos as int,
        root.mask,
        i as nat,
    ));
}

/// Stores the frames that part `key` from `other`, two keys with the same
/// chunks above `depth`, and returns the root of the topmost of them.
fn split(
    key: u32,
    value: u32,
    other: u32,
    other_value: u32,
    depth: usize,
    dest: &mut Writer,
) -> (r: Result<Root, Error>)
    requires
        depth <= MAX_DEPTH,
        key != other,
        key < TOP_BIT,
        other < TOP_BIT,
        forall|j: nat| j < depth ==> chunk(key, j) == chunk(other, j),
    ensures
        is_prefix(old(dest)@, final(dest)@),
        r is Ok <==> old(dest)@.len() + split_below(key, other, depth as nat) < TOP_BIT,
        r is Ok ==> split_result(
            old(dest)@,
            final(dest)@,
            r->Ok_0,
            key,
            value,
            other,
            other_value,
            depth as nat,
        ),
        r is Err ==> r->Err_0 == Error::InvariantViolation,
    decreases MAX_DEPTH - depth,
{
    let ghost d0 = dest@;
    let ghost path = key_path(key, depth as nat);
    let a = chunk_at(key, depth);
    let b = chunk_at(other, depth);
    let blank = Frame::empty();
    proof {
        lemma_prefix_refl(d0);
        lemma_mask_empty(blank@);
    }
    let frame = if a != b {
        let first = blank.with_slot(SlotIndex::at(a), Slot::Value { key, value });
        proof {
            lemma_mask_update(blank@, a as int, Slot::Value { key, value });
            lemma_mask_update(first@, b as int, Slot::Value { key: other, value: other_value });
            lemma_or_basics(bit_of(a as u32), bit_of(b as u32));
        }
        first.with_slot(SlotIndex::at(b), Slot::Value { key: other, value: other_value })
    } else {
        proof {
            if depth == MAX_DEPTH {
                assert forall|j: nat| j <= 6 implies chunk(key, j) == chunk(other, j) by {}
                lemma_chunks_determine_hash(key, other);
            }
        }
        let child = match split(key, value, other, other_value, depth + 1, dest) {
            Ok(child) => child,
            Err(e) => {
                return Err(e);
            },
        };
        proof {
            lemma_mask_update(blank@, a as int, Slot::Ref { pos: child.pos, mask: child.mask });
            lemma_or_basics(bit_of(a as u32), bit_of(b as u32));
        }
        blank.with_slot(SlotIndex::at(a), Slot::Ref { pos: child.pos, mask: child.mask })
    };
    let ghost d1 = dest@;
    match frame.write(dest) {
        Err(e) => Err(e),
        Ok((pos, mask)) => {
            let new = Root { pos, mask };
            proof {
                let e = dest@;
                lemma_prefix_extend(d1, crate::frame::frame_bytes(frame@));
                lemma_prefix_trans(d0, d1, e);
                lemma_frame_bytes_len(frame@);
                lemma_key_path_step(key, depth as nat);
                assert(path.push(a as u32) == key_path(key, depth as nat + 1));
                if a != b {
                    assert(on_path(other, path.push(b as u32))) by {
                        assert forall|j: int| 0 <= j < path.push(b as u32).len() implies chunk(
                            other,
                            j as nat,
                        ) == #[trigger] path.push(b as u32)[j] by {
                            if j < depth {
                                assert(chunk(key, j as nat) == chunk(other, j as nat));
                            }
                        }
                    }
                } else {
                    lemma_extend(d1, e, Root { pos: frame@[a as int]->Ref_pos, mask: frame@[a as int]->Ref_mask }, key_path(key, depth as nat + 1));
                }
                assert forall|i: nat| i < SLOT_COUNT implies match #[trigger] stored_slot(
                    e,
                    new.pos as int,
                    new.mask,
                    i,
                ) {
                    Slot::Empty => true,
                    Slot::Value { key: k, .. } => on_path(k, path.push(i as u32)),
                    Slot::Ref { pos: p, mask: m } => path.len() < 6 && wf_at(
                        e,
                        Root { pos: p, mask: m },
                        path.push(i as u32),
                    ),
                } by {
                    assert(stored_slots(e, new.pos as int, new.mask)[i as int] == stored_slot(
                        e,
                        new.pos as int,
                        new.mask,
                        i,
                    ));
                }
                assert(wf_at(e, new, path));
                assert forall|k: u32| #[trigger]
                    lookup_at(e, new, k, depth as nat) == if k == key {
                        Ok::<Option<u32>, Error>(Some(value))
                    } else if k == other {
                        Ok::<Option<u32>, Error>(Some(other_value))
                    } else {
                        Ok::<Option<u32>, Error>(None)
                    } by {
                    lemma_lookup_in_frame(e, new, frame@, k, depth as nat);
                }
            }
            Ok(new)
        },
    }
}

/// Stores a new copy of the frame of `root`, which lies at `depth` on the
/// path of `key`, with `value` under `key`, after the new copies of the
/// frames below it, and returns its root.
fn put_at(root: Root, key: u32, value: u32, depth: usize, dest: &mut Writer) -> (r: Result<
    Root,
    Error,
>)
    requires
        depth <= MAX_DEPTH,
        key < TOP_BIT,
        wf_at(old(dest)@, root, key_path(key, depth as nat)),
    ensures
        is_prefix(old(dest)@, final(dest)@),
        r is Ok <==> old(dest)@.len() + put_below(old(dest)@, root, key, depth as nat) < TOP_BIT,
        r is Ok ==> put_result(old(dest)@, final(dest)@, root, r->Ok_0, key, value, depth as nat),
        r is Err ==> r->Err_0 == Error::InvariantViolation,
    decreases MAX_DEPTH - depth,
{
    let ghost d0 = dest@;
    let ghost path = key_path(key, depth as nat);
    let ghost old_slots = stored_slots(d0, root.pos as int, root.mask);
    proof {
        lemma_prefix_refl(d0);
        lemma_key_path_step(key, depth as nat);
        lemma_stored_mask(d0, root.pos as int, root.mask);
    }
    let frame = match Frame::read(root.pos as usize, root.mask, dest.as_slice()) {
        Ok(frame) => frame,
        Err(e) => {
            return Err(e);
        },
    };
    let c = chunk_at(key, depth);
    let index = SlotIndex::at(c);
    let found = frame.lookup(index);
    assert(found == stored_slot(d0, root.pos as int, root.mask, c as nat));
    let slot = match found {
        Slot::Empty => Slot::Value { key, value },
        Slot::Value { key: k, value: v } => {
            if k == key {
                Slot::Value { key, value }
            } else {
                proof {
                    assert(on_path(k, path.push(c as u32)));
                    assert forall|j: nat| j <= depth implies chunk(key, j) == chunk(k, j) by {
                        assert(chunk(k, j) == path.push(c as u32)[j as int]);
                    }
                    if depth == MAX_DEPTH {
                        lemma_chunks_determine_hash(key, k);
                    }
                }
                match split(key, value, k, v, depth + 1, dest) {
                    Ok(child) => Slot::Ref { pos: child.pos, mask: child.mask },
                    Err(e) => {
                        return Err(e);
                    },
                }
            }
        },
        Slot::Ref { pos, mask } => {
            match put_at(Root { pos, mask }, key, value, depth + 1, dest) {
                Ok(child) => Slot::Ref { pos: child.pos, mask: child.mask },
                Err(e) => {
                    return Err(e);
                },
            }
        },
    };
    let ghost d1 = dest@;
    let new_frame = frame.with_slot(index, slot);
    proof {
        lemma_mask_update(frame@, c as int, slot);
    }
    match new_frame.write(dest) {
        Err(e) => Err(e),
        Ok((pos, mask)) => {
            let new = Root { pos, mask };
            proof {
                let e = dest@;
                lemma_prefix_extend(d1, crate::frame::frame_bytes(new_frame@));
                lemma_prefix_trans(d0, d1, e);
                lemma_frame_bytes_len(new_frame@);
                assert(is_prefix(d0, e));
                match slot {
                    Slot::Ref { pos: p, mask: m } => {
                        lemma_extend(d1, e, Root { pos: p, mask: m }, key_path(key, depth as nat + 1));
                    },
                    _ => {},
                }
                assert forall|i: nat| i < SLOT_COUNT implies match #[trigger] stored_slot(
                    e,
                    new.pos as int,
                    new.mask,
                    i,
                ) {
                    Slot::Empty => true,
                    Slot::Value { key: k, .. } => on_path(k, path.push(i as u32)),
                    Slot::Ref { pos: p, mask: m } => path.len() < 6 && wf_at(
                        e,
                        Root { pos: p, mask: m },
                        path.push(i as u32),
                    ),
                } by {
                    assert(stored_slots(e, new.pos as int, new.mask)[i as int] == stored_slot(
                        e,
                        new.pos as int,
                        new.mask,
                        i,
                    ));
                    if i != c {
                        assert(new_frame@[i as int] == stored_slot(
                            d0,
                            root.pos as int,
                            root.mask,
                            i,
                        ));
                        match stored_slot(d0, root.pos as int, root.mask, i) {
                            Slot::Ref { pos: p, mask: m } => {
                                lemma_extend(d0, e, Root { pos: p, mask: m }, path.push(i as u32));
                            },
                            _ => {},
                        }
                    }
                }
                assert(wf_at(e, new, path));
                assert forall|k: u32| #[trigger]
                    lookup_at(e, new, k, depth as nat) == if k == key {
                        Ok::<Option<u32>, Error>(Some(value))
                    } else {
                        lookup_at(d0, root, k, depth as nat)
                    } by {
                    lemma_lookup_in_frame(e, new, new_frame@, k, depth as nat);
                    lemma_lookup_in_frame(d0, root, old_slots, k, depth as nat);
                    let i = chunk(k, depth as nat) as nat;
                    if i != c {
                        match stored_slot(d0, root.pos as int, root.mask, i) {
                            Slot::Ref { pos: p, mask: m } => {
                                lemma_extend(d0, e, Root { pos: p, mask: m }, path.push(i as u32));
                            },
                            _ => {},
                        }
                    }
                }
            }
            Ok(new)
        },
    }
}

impl Root {
    /// The root of the empty trie.
    pub fn zero() -> (r: Root)
        ensures
            r == (Root { pos: 0, mask: 0 }),
    {
        Root { pos: 0, mask: 0 }
    }

    /// The stored bytes of the root.
    pub fn to_bytes(&self) -> (r: Result<Vec<u8>, Error>)
        ensures
            r is Ok <==> self.pos < TOP_BIT,
            r is Ok ==> r->Ok_0@ == root_bytes(*self) && r->Ok_0@.len() == ROOT_LEN,
            r is Err ==> r->Err_0 == Error::InvariantViolation,
    {
        if self.pos >= TOP_BIT {
            return Err(Error::InvariantViolation);
        }
        let mut out: Vec<u8> = Vec::new();
        let slot = Slot::Ref { pos: self.pos, mask: self.mask };
        slot.write(&mut out);
        Ok(out)
    }

    /// Reads the root stored at `pos` in `source`.
    pub fn read(source: &[u8], pos: usize) -> (r: Result<Root, Error>)
        ensures
            r is Ok <==> root_at(source@, pos as int),
            r is Ok ==> r->Ok_0 == root_of(source@, pos as int) && r->Ok_0.pos < TOP_BIT,
            r is Err ==> r->Err_0 == Error::InvariantViolation,
    {
        match Slot::read(source, pos) {
            Ok(Slot::Ref { pos, mask }) => Ok(Root { pos, mask }),
            _ => Err(Error::InvariantViolation),
        }
    }

    /// Whether this is the root of the empty trie.
    pub fn is_zero(&self) -> (b: bool)
        ensures
            b == (*self == Root { pos: 0, mask: 0 }),
    {
        self.pos == 0 && self.mask == 0
    }
}

impl Hamt {
    /// The trie is sound in the diary `d`.
    pub open spec fn wf(&self, d: Seq<u8>) -> bool {
        wf_at(d, self.root, Seq::empty())
    }

    /// The trie with the given root.
    pub fn new(root: Root) -> (h: Hamt)
        ensures
            h.root == root,
    {
        Hamt { root }
    }

    /// The value stored under `key`, read from `source`.
    pub fn get(&self, key: u32, source: &[u8]) -> (r: Result<Option<u32>, Error>)
        ensures
            r == lookup(source@, self.root, key),
    {
        let mut cur = self.root;
        let mut depth: usize = 0;
        loop
            invariant
                depth <= MAX_DEPTH,
                lookup_at(source@, cur, key, depth as nat) == lookup(source@, self.root, key),
            decreases MAX_DEPTH - depth,
        {
            let frame = match Frame::read(cur.pos as usize, cur.mask, source) {
                Ok(frame) => frame,
                Err(_) => {
                    return Err(Error::InvariantViolation);
                },
            };
            let index = SlotIndex::at(chunk_at(key, depth));
            match frame.lookup(index) {
                Slot::Empty => {
                    return Ok(None);
                },
                Slot::Value { key: k, value } => {
                    if k == key {
                        return Ok(Some(value));
                    } else {
                        return Ok(None);
                    }
                },
                Slot::Ref { pos, mask } => {
                    if depth == MAX_DEPTH {
                        assert(lookup_at(source@, Root { pos, mask }, key, 7) is Err);
                        return Err(Error::InvariantViolation);
                    }
                    cur = Root { pos, mask };
                    depth = depth + 1;
                },
            }
        }
    }
    /// Stores `value` under `key`: appends a new copy of every frame on the
    /// key's path to the diary and makes the topmost of them the root. An
    /// earlier value under the same key is replaced. It fails, and leaves
    /// the root as it was, when the key does not fit below the kind flag or
    /// when one of the new frames would start past what a reference can
    /// address.
    pub fn put(&mut self, key: u32, value: u32, dest: &mut Writer) -> (r: Result<Root, Error>)
        requires
            old(self).wf(old(dest)@),
        ensures
            is_prefix(old(dest)@, final(dest)@),
            r is Ok <==> key < TOP_BIT && old(dest)@.len() + put_below(
                old(dest)@,
                old(self).root,
                key,
                0,
            ) < TOP_BIT,
            r is Ok ==> {
                &&& final(self).root == r->Ok_0
                &&& final(self).wf(final(dest)@)
                &&& put_step(old(dest)@, old(self).root, key, value, final(dest)@, r->Ok_0)
                &&& entries(final(dest)@, r->Ok_0) == entries(old(dest)@, old(self).root).insert(
                    key,
                    value,
                )
                &&& r->Ok_0.pos == old(dest)@.len() + put_below(old(dest)@, old(self).root, key, 0)
                &&& r->Ok_0.mask == old(self).root.mask | bit_of(chunk(key, 0))
                &&& final(dest)@.len() == r->Ok_0.pos + SLOT_LEN * popcount(r->Ok_0.mask)
                &&& final(dest)@.len() <= old(dest)@.len() + PUT_MAX
            },
            r is Err ==> r->Err_0 == Error::InvariantViolation,
            r is Err ==> final(self).root == old(self).root,
    {
        if key >= TOP_BIT {
            proof {
                lemma_prefix_refl(dest@);
            }
            return Err(Error::InvariantViolation);
        }
        let ghost d0 = dest@;
        let ghost root0 = self.root;
        assert(key_path(key, 0) =~= Seq::<u32>::empty());
        match put_at(self.root, key, value, 0, dest) {
            Err(e) => Err(e),
            Ok(new) => {
                self.root = new;
                proof {
                    let e = dest@;
                    assert forall|k: u32| #[trigger]
                        lookup(e, new, k) == if k == key {
                            Ok::<Option<u32>, Error>(Some(value))
                        } else {
                            lookup(d0, root0, k)
                        } by {
                        assert(lookup_at(e, new, k, 0) == if k == key {
                            Ok::<Option<u32>, Error>(Some(value))
                        } else {
                            lookup_at(d0, root0, k, 0)
                        });
                    }
                    assert(entries(e, new) =~= entries(d0, root0).insert(key, value));
                    lemma_put_below_bound(d0, root0, key, 0);
                    lemma_count_below_bound(new.mask, 32);
                }
                Ok(new)
            },
        }
    }
}

} // verus!
