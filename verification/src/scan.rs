//! Walking a whole trie: listing its values and checking its soundness.

use vstd::prelude::*;
use crate::bits::{chunk, chunk_at, MAX_DEPTH, TOP_BIT};
use crate::bits::lemma_chunk_bound;
use crate::error::Error;
use crate::frame::{frame_fits, stored_slot, stored_slots, Frame};
use crate::hamt::{lookup, lookup_at, on_path, root_at, root_of, wf_at, Hamt, Root};
use crate::index::index_wf;
use crate::slot::Slot;
use crate::slot_index::{SlotIndex, SLOT_COUNT};

verus! {

/// The values of a trie: those under the first `n` slots of the frame of
/// `root`, which lies at `depth`, in the order of the slots. The values
/// under a reference are those of the whole frame it points to.
pub open spec fn values_below(d: Seq<u8>, root: Root, depth: nat, n: nat) -> Seq<u32>
    decreases 7 - depth, n,
{
    if n == 0 || depth > 6 {
        Seq::empty()
    } else {
        values_below(d, root, depth, (n - 1) as nat) + match stored_slot(
            d,
            root.pos as int,
            root.mask,
            (n - 1) as nat,
        ) {
            Slot::Empty => Seq::empty(),
            Slot::Value { value, .. } => seq![value],
            Slot::Ref { pos, mask } => values_below(d, Root { pos, mask }, depth + 1, 32),
        }
    }
}

/// The values of the trie under `root`.
pub open spec fn values_of(d: Seq<u8>, root: Root) -> Seq<u32> {
    values_below(d, root, 0, 32)
}

/// Whether every frame of the trie under `root` can be read: each lies
/// within `d`, and none lies deeper than the hash has chunks.
pub open spec fn readable_at(d: Seq<u8>, root: Root, depth: nat) -> bool
    decreases 7 - depth,
{
    &&& depth <= 6
    &&& frame_fits(d, root.pos as int, root.mask)
    &&& forall|i: nat|
        i < SLOT_COUNT ==> match #[trigger] stored_slot(d, root.pos as int, root.mask, i) {
            Slot::Ref { pos, mask } => depth < 6 && readable_at(d, Root { pos, mask }, depth + 1),
            _ => true,
        }
}

/// Every frame of a sound trie can be read.
pub proof fn lemma_wf_readable(d: Seq<u8>, root: Root, path: Seq<u32>)
    requires
        wf_at(d, root, path),
    ensures
        readable_at(d, root, path.len()),
    decreases 7 - path.len(),
{
    assert forall|i: nat| i < SLOT_COUNT implies match #[trigger] stored_slot(
        d,
        root.pos as int,
        root.mask,
        i,
    ) {
        Slot::Ref { pos, mask } => path.len() < 6 && readable_at(
            d,
            Root { pos, mask },
            path.len() + 1,
        ),
        _ => true,
    } by {
        match stored_slot(d, root.pos as int, root.mask, i) {
            Slot::Ref { pos, mask } => {
                lemma_wf_readable(d, Root { pos, mask }, path.push(i as u32));
            },
            _ => {},
        }
    }
}

/// What is among the values under the first `n` slots is among the values
/// under the first `m`, for `n <= m`.
pub proof fn lemma_values_grow(d: Seq<u8>, root: Root, depth: nat, n: nat, m: nat, v: u32)
    requires
        n <= m,
        depth <= 6,
        values_below(d, root, depth, n).contains(v),
    ensures
        values_below(d, root, depth, m).contains(v),
    decreases m,
{
    if n < m {
        lemma_values_grow(d, root, depth, n, (m - 1) as nat, v);
        let before = values_below(d, root, depth, (m - 1) as nat);
        let all = values_below(d, root, depth, m);
        let i = choose|i: int| 0 <= i < before.len() && before[i] == v;
        assert(all[i] == v);
    }
}

/// The value that a lookup finds in a sound trie is among its values.
pub proof fn lemma_values_complete(d: Seq<u8>, root: Root, path: Seq<u32>, key: u32, v: u32)
    requires
        wf_at(d, root, path),
        lookup_at(d, root, key, path.len()) == Ok::<Option<u32>, Error>(Some(v)),
    ensures
        values_below(d, root, path.len(), 32).contains(v),
    decreases 7 - path.len(),
{
    lemma_chunk_bound(key, path.len());
    let depth = path.len();
    let i = chunk(key, depth) as nat;
    let before = values_below(d, root, depth, i);
    let upto = values_below(d, root, depth, i + 1);
    match stored_slot(d, root.pos as int, root.mask, i) {
        Slot::Empty => {},
        Slot::Value { value, .. } => {
            assert(upto[before.len() as int] == v);
        },
        Slot::Ref { pos, mask } => {
            let child = Root { pos, mask };
            lemma_values_complete(d, child, path.push(i as u32), key, v);
            let inner = values_below(d, child, depth + 1, 32);
            let j = choose|j: int| 0 <= j < inner.len() && inner[j] == v;
            assert(upto[before.len() + j] == v);
        },
    }
    lemma_values_grow(d, root, depth, i + 1, 32, v);
}

/// Each of the values of a sound trie is found by the lookup of some key
/// that the path to its frame leads to.
pub proof fn lemma_values_sound(d: Seq<u8>, root: Root, path: Seq<u32>, n: nat, v: u32) -> (key:
    u32)
    requires
        wf_at(d, root, path),
        n <= 32,
        values_below(d, root, path.len(), n).contains(v),
    ensures
        on_path(key, path),
        lookup_at(d, root, key, path.len()) == Ok::<Option<u32>, Error>(Some(v)),
    decreases 7 - path.len(), n,
{
    let depth = path.len();
    let before = values_below(d, root, depth, (n - 1) as nat);
    let all = values_below(d, root, depth, n);
    let at = choose|at: int| 0 <= at < all.len() && all[at] == v;
    if at < before.len() {
        assert(before[at] == v);
        lemma_values_sound(d, root, path, (n - 1) as nat, v)
    } else {
        let i = (n - 1) as nat;
        let longer = path.push(i as u32);
        match stored_slot(d, root.pos as int, root.mask, i) {
            Slot::Empty => 0,
            Slot::Value { key, value } => {
                assert(chunk(key, depth) == longer[depth as int]);
                assert forall|j: int| 0 <= j < path.len() implies chunk(key, j as nat)
                    == #[trigger] path[j] by {
                    assert(chunk(key, j as nat) == longer[j]);
                }
                key
            },
            Slot::Ref { pos, mask } => {
                let child = Root { pos, mask };
                let inner = values_below(d, child, depth + 1, 32);
                assert(inner[at - before.len()] == v);
                let key = lemma_values_sound(d, child, longer, 32, v);
                assert(chunk(key, depth) == longer[depth as int]);
                assert forall|j: int| 0 <= j < path.len() implies chunk(key, j as nat)
                    == #[trigger] path[j] by {
                    assert(chunk(key, j as nat) == longer[j]);
                }
                key
            },
        }
    }
}

/// The values of a sound trie are what its lookups find: a value is among
/// them exactly when the lookup of some key finds it.
pub proof fn lemma_values_are_found(d: Seq<u8>, root: Root, v: u32)
    requires
        wf_at(d, root, Seq::empty()),
    ensures
        values_of(d, root).contains(v) <==> exists|key: u32| #[trigger]
            lookup(d, root, key) == Ok::<Option<u32>, Error>(Some(v)),
{
    if values_of(d, root).contains(v) {
        let key = lemma_values_sound(d, root, Seq::empty(), 32, v);
        assert(lookup(d, root, key) == Ok::<Option<u32>, Error>(Some(v)));
    }
    if exists|key: u32| #[trigger] lookup(d, root, key) == Ok::<Option<u32>, Error>(Some(v)) {
        let key = choose|key: u32| #[trigger]
            lookup(d, root, key) == Ok::<Option<u32>, Error>(Some(v));
        lemma_values_complete(d, root, Seq::empty(), key, v);
    }
}

/// Appends the values under the frame of `root`, which lies at `depth`.
fn collect_at(root: Root, depth: usize, source: &[u8], out: &mut Vec<u32>) -> (r: Result<
    (),
    Error,
>)
    requires
        depth <= MAX_DEPTH,
    ensures
        r is Ok <==> readable_at(source@, root, depth as nat),
        r is Ok ==> final(out)@ == old(out)@ + values_below(source@, root, depth as nat, 32),
        r is Err ==> r->Err_0 == Error::InvariantViolation,
    decreases MAX_DEPTH - depth,
{
    let frame = match Frame::read(root.pos as usize, root.mask, source) {
        Ok(frame) => frame,
        Err(e) => {
            return Err(e);
        },
    };
    let ghost d = source@;
    let mut i: usize = 0;
    while i < SLOT_COUNT
        invariant
            i <= SLOT_COUNT,
            depth <= MAX_DEPTH,
            d == source@,
            frame.wf(),
            frame@ == stored_slots(d, root.pos as int, root.mask),
            frame_fits(d, root.pos as int, root.mask),
            out@ == old(out)@ + values_below(d, root, depth as nat, i as nat),
            forall|j: nat|
                j < i ==> match #[trigger] stored_slot(d, root.pos as int, root.mask, j) {
                    Slot::Ref { pos, mask } => depth < 6 && readable_at(
                        d,
                        Root { pos, mask },
                        depth as nat + 1,
                    ),
                    _ => true,
                },
        decreases SLOT_COUNT - i,
    {
        let slot = frame.lookup(SlotIndex::at(i));
        assert(slot == stored_slot(d, root.pos as int, root.mask, i as nat));
        match slot {
            Slot::Empty => {},
            Slot::Value { key: _, value } => {
                out.push(value);
            },
            Slot::Ref { pos, mask } => {
                if depth >= MAX_DEPTH {
                    return Err(Error::InvariantViolation);
                }
                match collect_at(Root { pos, mask }, depth + 1, source, out) {
                    Ok(()) => {},
                    Err(e) => {
                        return Err(e);
                    },
                }
            },
        }
        assert(out@ =~= old(out)@ + values_below(d, root, depth as nat, i as nat + 1));
        i = i + 1;
    }
    Ok(())
}

/// Whether the first chunks of `key` are the entries of `path`.
fn is_on_path(key: u32, path: &Vec<u32>) -> (b: bool)
    requires
        path@.len() <= 7,
    ensures
        b == on_path(key, path@),
{
    let mut j: usize = 0;
    while j < path.len()
        invariant
            j <= path@.len() <= 7,
            forall|k: int| 0 <= k < j ==> chunk(key, k as nat) == #[trigger] path@[k],
        decreases path@.len() - j,
    {
        if chunk_at(key, j) as u32 != path[j] {
            return false;
        }
        j = j + 1;
    }
    true
}

/// Whether the trie under `root` is sound in `source`, when `path` leads
/// to its top frame.
fn check_at(root: Root, source: &[u8], path: &mut Vec<u32>) -> (ok: bool)
    requires
        old(path)@.len() <= MAX_DEPTH,
    ensures
        final(path)@ == old(path)@,
        ok == wf_at(source@, root, old(path)@),
    decreases MAX_DEPTH - old(path)@.len(),
{
    if root.pos >= TOP_BIT {
        return false;
    }
    let frame = match Frame::read(root.pos as usize, root.mask, source) {
        Ok(frame) => frame,
        Err(_) => {
            return false;
        },
    };
    let ghost d = source@;
    let ghost here = path@;
    let depth = path.len();
    let mut i: usize = 0;
    while i < SLOT_COUNT
        invariant
            i <= SLOT_COUNT,
            d == source@,
            path@ == here,
            here == old(path)@,
            here.len() == depth,
            depth <= MAX_DEPTH,
            frame.wf(),
            frame@ == stored_slots(d, root.pos as int, root.mask),
            forall|j: nat|
                j < i ==> match #[trigger] stored_slot(d, root.pos as int, root.mask, j) {
                    Slot::Empty => true,
                    Slot::Value { key, .. } => on_path(key, here.push(j as u32)),
                    Slot::Ref { pos, mask } => here.len() < 6 && wf_at(
                        d,
                        Root { pos, mask },
                        here.push(j as u32),
                    ),
                },
        decreases SLOT_COUNT - i,
    {
        let slot = frame.lookup(SlotIndex::at(i));
        assert(slot == stored_slot(d, root.pos as int, root.mask, i as nat));
        match slot {
            Slot::Empty => {},
            Slot::Value { key, value: _ } => {
                path.push(i as u32);
                assert(path@ == here.push(i as u32));
                let fine = is_on_path(key, path);
                path.pop();
                assert(path@ =~= here);
                if !fine {
                    return false;
                }
            },
            Slot::Ref { pos, mask } => {
                if depth >= MAX_DEPTH {
                    return false;
                }
                path.push(i as u32);
                assert(path@ == here.push(i as u32));
                let fine = check_at(Root { pos, mask }, source, path);
                path.pop();
                assert(path@ =~= here);
                if !fine {
                    return false;
                }
            },
        }
        i = i + 1;
    }
    true
}

impl Hamt {
    /// The values of the trie, in the order of the slots that hold them. It
    /// fails when a frame of the trie cannot be read.
    pub fn values(&self, source: &[u8]) -> (r: Result<Vec<u32>, Error>)
        ensures
            r is Ok <==> readable_at(source@, self.root, 0),
            r is Ok ==> r->Ok_0@ == values_of(source@, self.root),
            r is Err ==> r->Err_0 == Error::InvariantViolation,
    {
        let mut out: Vec<u32> = Vec::new();
        match collect_at(self.root, 0, source, &mut out) {
            Ok(()) => Ok(out),
            Err(e) => Err(e),
        }
    }

    /// Whether the trie is sound in `source`: every frame lies within it,
    /// every key sits where its chunks lead, and no frame lies deeper than
    /// the hash has chunks.
    pub fn check(&self, source: &[u8]) -> (ok: bool)
        ensures
            ok == self.wf(source@),
    {
        let mut path: Vec<u32> = Vec::new();
        check_at(self.root, source, &mut path)
    }
}

/// Whether the index under `outer` is sound in `source`: the trie is
/// sound, and each of its values is the place of a stored root of a sound
/// trie.
pub fn check_index(outer: Root, source: &[u8]) -> (ok: bool)
    ensures
        ok == index_wf(source@, outer),
{
    let top = Hamt::new(outer);
    if !top.check(source) {
        return false;
    }
    let ghost d = source@;
    proof {
        lemma_wf_readable(d, outer, Seq::empty());
    }
    let places = match top.values(source) {
        Ok(places) => places,
        Err(_) => {
            return false;
        },
    };
    let mut i: usize = 0;
    while i < places.len()
        invariant
            i <= places@.len(),
            d == source@,
            places@ == values_of(d, outer),
            wf_at(d, outer, Seq::empty()),
            forall|j: int|
                0 <= j < i ==> root_at(d, #[trigger] places@[j] as int) && wf_at(
                    d,
                    root_of(d, places@[j] as int),
                    Seq::empty(),
                ),
        decreases places@.len() - i,
    {
        let p = places[i];
        let sound = match Root::read(source, p as usize) {
            Ok(inner) => Hamt::new(inner).check(source),
            Err(_) => false,
        };
        if !sound {
            proof {
                assert(values_of(d, outer).contains(p));
                lemma_values_are_found(d, outer, p);
            }
            return false;
        }
        i = i + 1;
    }
    proof {
        assert forall|k: u32|
            match #[trigger] lookup(d, outer, k) {
                Ok(Some(p)) => root_at(d, p as int) && wf_at(d, root_of(d, p as int), Seq::empty()),
                _ => true,
            } by {
            match lookup(d, outer, k) {
                Ok(Some(p)) => {
                    lemma_values_are_found(d, outer, p);
                    let j = choose|j: int| 0 <= j < places@.len() && places@[j] == p;
                    assert(root_at(d, places@[j] as int));
                },
                _ => {},
            }
        }
    }
    true
}

} // verus!
