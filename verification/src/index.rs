//! An index on two keys: a trie whose values are the stored roots of
//! further tries. The engine keeps two of them, one that leads from an
//! object to its rings and one that leads from a ring to its objects.

use vstd::prelude::*;
use crate::bits::{bit_of, chunk, popcount, TOP_BIT};
use crate::slot::SLOT_LEN;
use crate::bits::lemma_count_below_bound;
use crate::diary::{is_prefix, lemma_prefix_extend, lemma_prefix_trans, Writer};
use crate::error::Error;
use crate::hamt::{lookup, lookup_at, root_at, root_bytes, root_of, wf_at, Hamt, Root, ROOT_LEN};
use crate::hamt::{
    lemma_extend,
    lemma_put_below_bound,
    lemma_put_below_extend,
    lemma_root_prefix,
    lemma_root_round_trip,
    lemma_wf_lookup_ok,
    lemma_zero_root,
    put_below,
};

verus! {

/// Bytes that one update of an index can add to the diary at most: two puts
/// and a stored root.
pub const INDEX_PUT_MAX: usize = 3592;

/// Whether the index under `outer` is sound in `d`: the trie is sound, and
/// each of its values is the place of a stored root of a sound trie.
pub open spec fn index_wf(d: Seq<u8>, outer: Root) -> bool {
    &&& wf_at(d, outer, Seq::empty())
    &&& forall|k: u32|
        match #[trigger] lookup(d, outer, k) {
            Ok(Some(p)) => root_at(d, p as int) && wf_at(d, root_of(d, p as int), Seq::empty()),
            _ => true,
        }
}

/// The root of the trie that the index keeps under `k`: the empty trie when
/// it keeps none.
pub open spec fn inner_root(d: Seq<u8>, outer: Root, k: u32) -> Root {
    match lookup(d, outer, k) {
        Ok(Some(p)) => root_of(d, p as int),
        _ => Root { pos: 0, mask: 0 },
    }
}

/// The value that the index keeps under the keys `k1` and `k2`.
pub open spec fn nested(d: Seq<u8>, outer: Root, k1: u32, k2: u32) -> Option<u32> {
    match lookup(d, inner_root(d, outer, k1), k2) {
        Ok(found) => found,
        Err(_) => None,
    }
}

/// Where an update of the index under `k1` and `k2` stores the new top
/// frame of the index: after the new frames of the trie under `k1`, the
/// stored root of that trie, and the new frames of the index below its top.
pub open spec fn nested_top(d: Seq<u8>, outer: Root, k1: u32, k2: u32) -> int {
    let inner = inner_root(d, outer, k1);
    d.len() + put_below(d, inner, k2, 0) + SLOT_LEN * popcount(inner.mask | bit_of(chunk(k2, 0)))
        + ROOT_LEN + put_below(d, outer, k1, 0)
}

/// The index without entries is sound in every diary and keeps no value.
pub proof fn lemma_zero_index(d: Seq<u8>)
    ensures
        index_wf(d, Root { pos: 0, mask: 0 }),
        forall|a: u32, b: u32| #[trigger] nested(d, Root { pos: 0, mask: 0 }, a, b) is None,
{
    lemma_zero_root(d, Seq::empty(), 0);
    assert forall|a: u32, b: u32| #[trigger] nested(d, Root { pos: 0, mask: 0 }, a, b) is None by {
        assert(lookup(d, Root { pos: 0, mask: 0 }, a) == Ok::<Option<u32>, Error>(None));
        assert(lookup(d, Root { pos: 0, mask: 0 }, b) == Ok::<Option<u32>, Error>(None));
    }
}

/// A sound index stays sound, and keeps what it kept, when bytes are
/// appended to the diary.
pub proof fn lemma_index_extend(d: Seq<u8>, e: Seq<u8>, outer: Root)
    requires
        is_prefix(d, e),
        index_wf(d, outer),
    ensures
        index_wf(e, outer),
        forall|a: u32| #[trigger] inner_root(e, outer, a) == inner_root(d, outer, a),
        forall|a: u32, b: u32| #[trigger] nested(e, outer, a, b) == nested(d, outer, a, b),
{
    lemma_extend(d, e, outer, Seq::empty());
    assert forall|k: u32| #[trigger]
        lookup(e, outer, k) == lookup(d, outer, k) && inner_root(e, outer, k) == inner_root(
            d,
            outer,
            k,
        ) && (match lookup(e, outer, k) {
            Ok(Some(p)) => root_at(e, p as int) && wf_at(e, root_of(e, p as int), Seq::empty()),
            _ => true,
        }) by {
        assert(lookup_at(e, outer, k, 0) == lookup_at(d, outer, k, 0));
        match lookup(d, outer, k) {
            Ok(Some(p)) => {
                lemma_root_prefix(d, e, p as int);
                lemma_extend(d, e, root_of(d, p as int), Seq::empty());
            },
            _ => {},
        }
    }
    assert forall|a: u32, b: u32| #[trigger] nested(e, outer, a, b) == nested(d, outer, a, b) by {
        let inner = inner_root(d, outer, a);
        assert(lookup(e, outer, a) == lookup(d, outer, a));
        match lookup(d, outer, a) {
            Ok(Some(p)) => {
                lemma_extend(d, e, inner, Seq::empty());
                assert(lookup_at(e, inner, b, 0) == lookup_at(d, inner, b, 0));
            },
            _ => {
                lemma_zero_root(d, Seq::empty(), 0);
                lemma_zero_root(e, Seq::empty(), 0);
                assert(lookup_at(e, inner, b, 0) == lookup_at(d, inner, b, 0));
            },
        }
    }
}

/// What a lookup under the keys `k1` and `k2` finds in the index. A value
/// of the index that is not the place of a stored root is a broken
/// invariant.
pub open spec fn nested_lookup(d: Seq<u8>, outer: Root, k1: u32, k2: u32) -> Result<
    Option<u32>,
    Error,
> {
    match lookup(d, outer, k1) {
        Err(e) => Err(e),
        Ok(None) => Ok(None),
        Ok(Some(p)) => if root_at(d, p as int) {
            lookup(d, root_of(d, p as int), k2)
        } else {
            Err(Error::InvariantViolation)
        },
    }
}

/// In a sound index a lookup does not fail and finds what the index keeps.
pub proof fn lemma_nested_lookup(d: Seq<u8>, outer: Root, k1: u32, k2: u32)
    requires
        index_wf(d, outer),
    ensures
        nested_lookup(d, outer, k1, k2) == Ok::<Option<u32>, Error>(nested(d, outer, k1, k2)),
{
    lemma_wf_lookup_ok(d, outer, Seq::empty(), k1);
    lemma_zero_root(d, Seq::empty(), 0);
    match lookup(d, outer, k1) {
        Ok(Some(p)) => {
            lemma_wf_lookup_ok(d, root_of(d, p as int), Seq::empty(), k2);
        },
        _ => {
            assert(lookup_at(d, Root { pos: 0, mask: 0 }, k2, 0) == Ok::<Option<u32>, Error>(None));
        },
    }
}

/// Whether `bytes` are stored in `d` at `p`.
pub open spec fn holds(d: Seq<u8>, p: u32, bytes: Seq<u8>) -> bool {
    p + bytes.len() <= d.len() && d.subrange(p as int, p + bytes.len()) == bytes
}

/// The number of the last entry in `items` with the keys `a` and `b`. An
/// entry is a pair of keys and the bytes stored for them.
pub open spec fn last_entry(items: Seq<(u32, u32, Seq<u8>)>, a: u32, b: u32) -> Option<int>
    decreases items.len(),
{
    if items.len() == 0 {
        None
    } else if items.last().0 == a && items.last().1 == b {
        Some(items.len() - 1)
    } else {
        last_entry(items.drop_last(), a, b)
    }
}

/// How storing `items` one after the other changes an index: the index
/// under `root0` in `d0` becomes the index under `root` in `d`. Under keys
/// that no entry has it keeps what it kept. Under the keys of an entry it
/// keeps the place at which the bytes of the last such entry are stored.
pub open spec fn kept_after(
    d0: Seq<u8>,
    root0: Root,
    items: Seq<(u32, u32, Seq<u8>)>,
    d: Seq<u8>,
    root: Root,
) -> bool {
    forall|a: u32, b: u32|
        match last_entry(items, a, b) {
            None => #[trigger] nested(d, root, a, b) == nested(d0, root0, a, b),
            Some(j) => nested(d, root, a, b) is Some && holds(
                d,
                nested(d, root, a, b)->Some_0,
                items[j].2,
            ),
        }
}

pub proof fn lemma_last_entry_range(items: Seq<(u32, u32, Seq<u8>)>, a: u32, b: u32)
    ensures
        last_entry(items, a, b) matches Some(j) ==> 0 <= j < items.len() && items[j].0 == a
            && items[j].1 == b,
    decreases items.len(),
{
    if items.len() > 0 && !(items.last().0 == a && items.last().1 == b) {
        lemma_last_entry_range(items.drop_last(), a, b);
    }
}

/// Stored bytes stay where they are when bytes are appended to the diary.
pub proof fn lemma_holds_extend(d: Seq<u8>, e: Seq<u8>, p: u32, bytes: Seq<u8>)
    requires
        is_prefix(d, e),
        holds(d, p, bytes),
    ensures
        holds(e, p, bytes),
{
    crate::diary::lemma_prefix_subrange(d, e, p as int, p + bytes.len());
}

/// Nothing was stored yet: the index keeps what it kept.
pub proof fn lemma_kept_start(d: Seq<u8>, root: Root)
    ensures
        kept_after(d, root, Seq::empty(), d, root),
{
}

/// One more entry was stored: the index keeps its place under its keys, and
/// under every other pair of keys what it kept before.
pub proof fn lemma_kept_step(
    d0: Seq<u8>,
    root0: Root,
    items: Seq<(u32, u32, Seq<u8>)>,
    d: Seq<u8>,
    root: Root,
    item: (u32, u32, Seq<u8>),
    e: Seq<u8>,
    new: Root,
    place: u32,
)
    requires
        kept_after(d0, root0, items, d, root),
        is_prefix(d, e),
        holds(e, place, item.2),
        forall|a: u32, b: u32| #[trigger]
            nested(e, new, a, b) == if a == item.0 && b == item.1 {
                Some(place)
            } else {
                nested(d, root, a, b)
            },
    ensures
        kept_after(d0, root0, items.push(item), e, new),
{
    let all = items.push(item);
    assert(all.drop_last() =~= items);
    assert forall|a: u32, b: u32|
        match last_entry(all, a, b) {
            None => #[trigger] nested(e, new, a, b) == nested(d0, root0, a, b),
            Some(j) => nested(e, new, a, b) is Some && holds(
                e,
                nested(e, new, a, b)->Some_0,
                all[j].2,
            ),
        } by {
        if a == item.0 && b == item.1 {
        } else {
            assert(nested(e, new, a, b) == nested(d, root, a, b));
            lemma_last_entry_range(items, a, b);
            match last_entry(items, a, b) {
                None => {},
                Some(j) => {
                    lemma_holds_extend(d, e, nested(d, root, a, b)->Some_0, items[j].2);
                },
            }
        }
    }
}

/// No entry of `items` has the keys `a` and `b`.
pub open spec fn untouched(items: Seq<(u32, u32, Seq<u8>)>, a: u32, b: u32) -> bool {
    forall|i: int| 0 <= i < items.len() ==> !((#[trigger] items[i]).0 == a && items[i].1 == b)
}

/// The last entry with given keys is an entry with those keys, and no
/// later entry has them. There is none exactly when no entry has them.
pub proof fn lemma_last_entry(items: Seq<(u32, u32, Seq<u8>)>, a: u32, b: u32)
    ensures
        last_entry(items, a, b) is None <==> untouched(items, a, b),
        last_entry(items, a, b) matches Some(j) ==> 0 <= j < items.len() && items[j].0 == a
            && items[j].1 == b && forall|i: int|
            j < i < items.len() ==> !((#[trigger] items[i]).0 == a && items[i].1 == b),
    decreases items.len(),
{
    if items.len() > 0 {
        let n = items.len() - 1;
        if items.last().0 == a && items.last().1 == b {
            assert(items[n].0 == a && items[n].1 == b);
        } else {
            let before = items.drop_last();
            lemma_last_entry(before, a, b);
            if untouched(before, a, b) {
                assert forall|i: int| 0 <= i < items.len() implies !((#[trigger] items[i]).0 == a
                    && items[i].1 == b) by {
                    if i < n {
                        assert(before[i] == items[i]);
                    }
                }
            } else {
                let i = choose|i: int|
                    0 <= i < before.len() && (#[trigger] before[i]).0 == a && before[i].1 == b;
                assert(items[i] == before[i]);
            }
            match last_entry(before, a, b) {
                Some(j) => {
                    assert forall|i: int| j < i < items.len() implies !((#[trigger] items[i]).0
                        == a && items[i].1 == b) by {
                        if i < n {
                            assert(before[i] == items[i]);
                        }
                    }
                },
                None => {},
            }
        }
    }
}

/// What a later version keeps of an earlier one: under keys that nothing
/// was stored for in between, a lookup in the later version finds what it
/// found in the earlier one.
pub proof fn lemma_unwritten_kept(
    d0: Seq<u8>,
    root0: Root,
    items: Seq<(u32, u32, Seq<u8>)>,
    d: Seq<u8>,
    root: Root,
    a: u32,
    b: u32,
)
    requires
        kept_after(d0, root0, items, d, root),
        untouched(items, a, b),
    ensures
        nested(d, root, a, b) == nested(d0, root0, a, b),
{
    lemma_last_entry(items, a, b);
}

/// What a later version shows of what was stored: under the keys of an
/// entry, a lookup finds the place at which the bytes of the last entry
/// with those keys are stored.
pub proof fn lemma_written_kept(
    d0: Seq<u8>,
    root0: Root,
    items: Seq<(u32, u32, Seq<u8>)>,
    d: Seq<u8>,
    root: Root,
    j: int,
)
    requires
        kept_after(d0, root0, items, d, root),
        0 <= j < items.len(),
        forall|i: int|
            j < i < items.len() ==> !((#[trigger] items[i]).0 == items[j].0 && items[i].1
                == items[j].1),
    ensures
        nested(d, root, items[j].0, items[j].1) matches Some(p) && holds(d, p, items[j].2),
{
    let a = items[j].0;
    let b = items[j].1;
    lemma_last_entry(items, a, b);
    assert(!untouched(items, a, b));
    let found = last_entry(items, a, b)->Some_0;
    if found < j {
        assert(!(items[j].0 == a && items[j].1 == b));
    } else if found > j {
        assert(!(items[found].0 == a && items[found].1 == b));
    }
    assert(nested(d, root, a, b) is Some);
}

/// In a sound index a lookup under the keys of an entry finds the place at
/// which the bytes of the last entry with those keys are stored.
pub proof fn lemma_written_found(
    d0: Seq<u8>,
    root0: Root,
    items: Seq<(u32, u32, Seq<u8>)>,
    d: Seq<u8>,
    root: Root,
    j: int,
)
    requires
        kept_after(d0, root0, items, d, root),
        index_wf(d, root),
        0 <= j < items.len(),
        forall|i: int|
            j < i < items.len() ==> !((#[trigger] items[i]).0 == items[j].0 && items[i].1
                == items[j].1),
    ensures
        nested_lookup(d, root, items[j].0, items[j].1) matches Ok(Some(p)) && holds(
            d,
            p,
            items[j].2,
        ),
{
    lemma_written_kept(d0, root0, items, d, root, j);
    lemma_nested_lookup(d, root, items[j].0, items[j].1);
}

/// Looks up the value that the index keeps under the keys `k1` and `k2`.
pub fn get_nested(outer: &Hamt, k1: u32, k2: u32, source: &[u8]) -> (r: Result<Option<u32>, Error>)
    ensures
        r == nested_lookup(source@, outer.root, k1, k2),
{
    let found = match outer.get(k1, source) {
        Ok(found) => found,
        Err(e) => {
            return Err(e);
        },
    };
    match found {
        None => Ok(None),
        Some(p) => match Root::read(source, p as usize) {
            Ok(root) => Hamt::new(root).get(k2, source),
            Err(e) => Err(e),
        },
    }
}

/// Stores `value` under the keys `k1` and `k2`: puts it into the trie that
/// the index keeps under `k1`, stores the new root of that trie, and puts
/// the place of the stored root into the index under `k1`.
pub fn put_nested(outer: &mut Hamt, k1: u32, k2: u32, value: u32, writer: &mut Writer) -> (r:
    Result<(), Error>)
    requires
        index_wf(old(writer)@, old(outer).root),
    ensures
        is_prefix(old(writer)@, final(writer)@),
        r is Ok <==> k1 < TOP_BIT && k2 < TOP_BIT && nested_top(
            old(writer)@,
            old(outer).root,
            k1,
            k2,
        ) < TOP_BIT,
        old(writer)@.len() <= nested_top(old(writer)@, old(outer).root, k1, k2) <= old(writer)@.len()
            + INDEX_PUT_MAX - 256,
        r is Ok ==> {
            &&& index_wf(final(writer)@, final(outer).root)
            &&& final(outer).root.pos == nested_top(old(writer)@, old(outer).root, k1, k2)
            &&& final(writer)@.len() == final(outer).root.pos + SLOT_LEN * popcount(
                final(outer).root.mask,
            )
            &&& final(writer)@.len() <= old(writer)@.len() + INDEX_PUT_MAX
            &&& forall|a: u32, b: u32| #[trigger]
                nested(final(writer)@, final(outer).root, a, b) == if a == k1 && b == k2 {
                    Some(value)
                } else {
                    nested(old(writer)@, old(outer).root, a, b)
                }
        },
        r is Err ==> r->Err_0 == Error::InvariantViolation,
        r is Err ==> final(outer).root == old(outer).root,
{
    let ghost d0 = writer@;
    let ghost outer0 = outer.root;
    proof {
        lemma_wf_lookup_ok(d0, outer0, Seq::empty(), k1);
        lemma_zero_root(d0, Seq::empty(), 0);
        crate::diary::lemma_prefix_refl(d0);
        lemma_put_below_bound(d0, inner_root(d0, outer0, k1), k2, 0);
        lemma_put_below_bound(d0, outer0, k1, 0);
        lemma_count_below_bound(inner_root(d0, outer0, k1).mask | bit_of(chunk(k2, 0)), 32);
    }
    let found = match outer.get(k1, writer.as_slice()) {
        Ok(found) => found,
        Err(e) => {
            return Err(e);
        },
    };
    let inner_old = match found {
        None => Root::zero(),
        Some(p) => match Root::read(writer.as_slice(), p as usize) {
            Ok(root) => root,
            Err(e) => {
                return Err(e);
            },
        },
    };
    assert(inner_old == inner_root(d0, outer0, k1));
    let mut inner = Hamt::new(inner_old);
    proof {
        lemma_put_below_bound(d0, inner_old, k2, 0);
    }
    let inner_new = match inner.put(k2, value, writer) {
        Ok(root) => root,
        Err(e) => {
            return Err(e);
        },
    };
    let ghost d1 = writer@;
    proof {
        lemma_count_below_bound(inner_new.mask, 32);
    }
    let stored = match inner_new.to_bytes() {
        Ok(bytes) => bytes,
        Err(e) => {
            return Err(e);
        },
    };
    let at = match writer.write_blob(stored.as_slice()) {
        Ok(at) => at,
        Err(e) => {
            return Err(e);
        },
    };
    let ghost d2 = writer@;
    proof {
        lemma_prefix_extend(d1, stored@);
        lemma_prefix_trans(d0, d1, d2);
        lemma_index_extend(d0, d2, outer0);
        lemma_put_below_bound(d2, outer0, k1, 0);
        lemma_put_below_extend(d0, d2, outer0, Seq::empty(), k1);
        assert(d2.subrange(at as int, at + ROOT_LEN) =~= root_bytes(inner_new));
        lemma_root_round_trip(d2, at as int, inner_new);
    }
    let put = outer.put(k1, at, writer);
    proof {
        lemma_prefix_trans(d0, d2, writer@);
    }
    match put {
        Err(e) => Err(e),
        Ok(top) => {
            proof {
                let d3 = writer@;
                lemma_count_below_bound(top.mask, 32);
                lemma_prefix_trans(d0, d2, d3);
                lemma_prefix_trans(d1, d2, d3);
                lemma_root_prefix(d2, d3, at as int);
                lemma_extend(d1, d3, inner_new, Seq::empty());
                lemma_index_extend(d0, d3, outer0);
                lemma_index_extend(d2, d3, outer0);
                assert forall|k: u32|
                    match #[trigger] lookup(d3, top, k) {
                        Ok(Some(p)) => root_at(d3, p as int) && wf_at(
                            d3,
                            root_of(d3, p as int),
                            Seq::empty(),
                        ),
                        _ => true,
                    } by {
                    if k != k1 {
                        assert(lookup(d3, top, k) == lookup(d2, outer0, k));
                        assert(lookup(d3, outer0, k) == lookup(d2, outer0, k)) by {
                            lemma_extend(d2, d3, outer0, Seq::empty());
                            assert(lookup_at(d3, outer0, k, 0) == lookup_at(d2, outer0, k, 0));
                        }
                    }
                }
                assert forall|a: u32, b: u32| #[trigger]
                    nested(d3, top, a, b) == if a == k1 && b == k2 {
                        Some(value)
                    } else {
                        nested(d0, outer0, a, b)
                    } by {
                    if a == k1 {
                        assert(lookup(d3, top, a) == Ok::<Option<u32>, Error>(Some(at)));
                        assert(inner_root(d3, top, a) == inner_new);
                        assert(lookup_at(d3, inner_new, b, 0) == lookup_at(d1, inner_new, b, 0));
                        assert(lookup(d1, inner_new, b) == if b == k2 {
                            Ok::<Option<u32>, Error>(Some(value))
                        } else {
                            lookup(d0, inner_old, b)
                        });
                    } else {
                        assert(lookup(d3, top, a) == lookup(d2, outer0, a));
                        assert(lookup(d3, outer0, a) == lookup(d2, outer0, a)) by {
                            lemma_extend(d2, d3, outer0, Seq::empty());
                            assert(lookup_at(d3, outer0, a, 0) == lookup_at(d2, outer0, a, 0));
                        }
                        assert(inner_root(d3, top, a) == inner_root(d3, outer0, a));
                        assert(nested(d3, top, a, b) == nested(d3, outer0, a, b));
                        assert(nested(d3, outer0, a, b) == nested(d0, outer0, a, b));
                    }
                }
            }
            Ok(())
        },
    }
}

} // verus!
