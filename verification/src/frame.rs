//! A trie node: 32 slots, of which only the occupied ones are stored.
//!
//! The stored form of a frame is the stored form of its occupied slots, in
//! ascending order of their index. Which indices are occupied is not part of
//! it: the reference that points to the frame carries them as a bit mask.

use vstd::prelude::*;
use crate::bits::{bit_of, count_below, has_bit, popcount, count_bits_below, test_bit, TOP_BIT};
use crate::bits::{
    lemma_count_below_bound,
    lemma_count_below_strict,
    lemma_has_bit_or,
    lemma_has_bit_zero,
    lemma_mask_ext,
};
use crate::diary::{is_prefix, lemma_prefix_subrange, Writer};
use crate::error::Error;
use crate::slot::{decode, lemma_decode_encode, Slot, SLOT_LEN};
use crate::slot_index::{SlotIndex, SLOT_COUNT};

verus! {

/// A trie node held in memory.
pub struct Frame {
    slots: Vec<Slot>,
}

impl View for Frame {
    type V = Seq<Slot>;

    closed spec fn view(&self) -> Seq<Slot> {
        self.slots@
    }
}

/// The slot with index `i` of the frame that is stored at `pos` in `d` and
/// whose occupied indices are the set bits of `mask`.
pub open spec fn stored_slot(d: Seq<u8>, pos: int, mask: u32, i: nat) -> Slot {
    if has_bit(mask, i as u32) {
        let at = pos + SLOT_LEN * count_below(mask, i);
        decode(d.subrange(at, at + SLOT_LEN))
    } else {
        Slot::Empty
    }
}

/// The 32 slots of the frame stored at `pos` in `d` under `mask`.
pub open spec fn stored_slots(d: Seq<u8>, pos: int, mask: u32) -> Seq<Slot> {
    Seq::new(SLOT_COUNT as nat, |i: int| stored_slot(d, pos, mask, i as nat))
}

/// Whether the frame stored at `pos` under `mask` lies within `d`.
pub open spec fn frame_fits(d: Seq<u8>, pos: int, mask: u32) -> bool {
    0 <= pos && pos + SLOT_LEN * popcount(mask) <= d.len()
}

/// The mask of the occupied slots among the first `n`.
pub open spec fn mask_below(slots: Seq<Slot>, n: nat) -> u32
    decreases n,
{
    if n == 0 {
        0
    } else if slots[n - 1] is Empty {
        mask_below(slots, (n - 1) as nat)
    } else {
        mask_below(slots, (n - 1) as nat) | bit_of((n - 1) as u32)
    }
}

/// The mask of the occupied slots of a frame.
pub open spec fn mask_of(slots: Seq<Slot>) -> u32 {
    mask_below(slots, SLOT_COUNT as nat)
}

/// The stored bytes of the first `n` slots.
pub open spec fn bytes_below(slots: Seq<Slot>, n: nat) -> Seq<u8>
    decreases n,
{
    if n == 0 {
        Seq::empty()
    } else {
        bytes_below(slots, (n - 1) as nat) + slots[n - 1].encode()
    }
}

/// The stored bytes of a frame.
pub open spec fn frame_bytes(slots: Seq<Slot>) -> Seq<u8> {
    bytes_below(slots, SLOT_COUNT as nat)
}

/// How many of the first `n` slots are occupied.
pub open spec fn occupied_below(slots: Seq<Slot>, n: nat) -> nat
    decreases n,
{
    if n == 0 {
        0
    } else {
        occupied_below(slots, (n - 1) as nat) + if slots[n - 1] is Empty {
            0nat
        } else {
            1nat
        }
    }
}

/// How many of the slots of a frame are occupied.
pub open spec fn occupied(slots: Seq<Slot>) -> nat {
    occupied_below(slots, SLOT_COUNT as nat)
}

/// A frame has 32 slots, each of which can be stored.
pub open spec fn slots_wf(slots: Seq<Slot>) -> bool {
    &&& slots.len() == SLOT_COUNT
    &&& forall|i: int| 0 <= i < SLOT_COUNT ==> (#[trigger] slots[i]).wf()
}

/// Bit `j` of the mask of the first `n` slots says whether slot `j` is one
/// of them and is occupied.
pub proof fn lemma_mask_below_bits(slots: Seq<Slot>, n: nat, j: u32)
    requires
        n <= SLOT_COUNT,
        j < SLOT_COUNT,
    ensures
        has_bit(mask_below(slots, n), j) == (j < n && !(slots[j as int] is Empty)),
    decreases n,
{
    if n == 0 {
        lemma_has_bit_zero(j);
    } else {
        lemma_mask_below_bits(slots, (n - 1) as nat, j);
        if !(slots[n - 1] is Empty) {
            lemma_has_bit_or(mask_below(slots, (n - 1) as nat), (n - 1) as u32, j);
        }
    }
}

/// The stored bytes of the first `n` slots are eight for each bit that the
/// frame's mask has below `n`.
pub proof fn lemma_bytes_below_len(slots: Seq<Slot>, n: nat)
    requires
        n <= SLOT_COUNT,
    ensures
        bytes_below(slots, n).len() == SLOT_LEN * count_below(mask_of(slots), n),
    decreases n,
{
    if n > 0 {
        lemma_bytes_below_len(slots, (n - 1) as nat);
        lemma_mask_below_bits(slots, SLOT_COUNT as nat, (n - 1) as u32);
    }
}

/// The stored bytes of the first `n` slots begin the stored bytes of the
/// first `m`, for `n <= m`.
pub proof fn lemma_bytes_below_prefix(slots: Seq<Slot>, n: nat, m: nat)
    requires
        n <= m,
    ensures
        bytes_below(slots, n).len() <= bytes_below(slots, m).len(),
        bytes_below(slots, m).subrange(0, bytes_below(slots, n).len() as int) == bytes_below(
            slots,
            n,
        ),
    decreases m,
{
    if n < m {
        lemma_bytes_below_prefix(slots, n, (m - 1) as nat);
        let a = bytes_below(slots, (m - 1) as nat);
        let b = bytes_below(slots, m);
        let k = bytes_below(slots, n).len() as int;
        assert(b.subrange(0, k) =~= a.subrange(0, k));
    } else {
        let b = bytes_below(slots, m);
        assert(b.subrange(0, b.len() as int) =~= b);
    }
}

/// A frame is stored in eight bytes for each occupied slot.
pub proof fn lemma_frame_bytes_len(slots: Seq<Slot>)
    ensures
        frame_bytes(slots).len() == SLOT_LEN * popcount(mask_of(slots)),
        popcount(mask_of(slots)) <= SLOT_COUNT,
{
    lemma_bytes_below_len(slots, SLOT_COUNT as nat);
    lemma_count_below_bound(mask_of(slots), SLOT_COUNT as nat);
}

/// Reading a frame where its stored bytes lie, under its own mask, gives
/// its slots back.
pub proof fn lemma_frame_round_trip(slots: Seq<Slot>, d: Seq<u8>, pos: int)
    requires
        slots_wf(slots),
        0 <= pos,
        pos + frame_bytes(slots).len() <= d.len(),
        d.subrange(pos, pos + frame_bytes(slots).len()) == frame_bytes(slots),
    ensures
        stored_slots(d, pos, mask_of(slots)) == slots,
        frame_fits(d, pos, mask_of(slots)),
{
    let mask = mask_of(slots);
    let fb = frame_bytes(slots);
    lemma_frame_bytes_len(slots);
    assert forall|i: int| 0 <= i < SLOT_COUNT implies stored_slot(d, pos, mask, i as nat)
        == slots[i] by {
        lemma_mask_below_bits(slots, SLOT_COUNT as nat, i as u32);
        if !(slots[i] is Empty) {
            let lo = bytes_below(slots, i as nat);
            let hi = bytes_below(slots, (i + 1) as nat);
            lemma_bytes_below_len(slots, i as nat);
            lemma_bytes_below_prefix(slots, (i + 1) as nat, SLOT_COUNT as nat);
            lemma_decode_encode(slots[i]);
            let at = pos + SLOT_LEN * count_below(mask, i as nat);
            assert(hi == lo + slots[i].encode());
            assert(d.subrange(at, at + SLOT_LEN) =~= slots[i].encode()) by {
                assert forall|k: int| 0 <= k < SLOT_LEN implies d[at + k] == slots[i].encode()[k] by {
                    assert(d[at + k] == d.subrange(pos, pos + fb.len())[lo.len() + k]);
                    assert(fb[lo.len() + k] == fb.subrange(0, hi.len() as int)[lo.len() + k]);
                    assert(hi[lo.len() + k] == slots[i].encode()[k]);
                }
            }
        }
    }
    assert(stored_slots(d, pos, mask) =~= slots);
}

/// A frame that lies within `d` reads the same in every sequence that `d`
/// begins.
pub proof fn lemma_stored_slot_prefix(d: Seq<u8>, e: Seq<u8>, pos: int, mask: u32, i: nat)
    requires
        is_prefix(d, e),
        frame_fits(d, pos, mask),
        i < SLOT_COUNT,
    ensures
        stored_slot(e, pos, mask, i) == stored_slot(d, pos, mask, i),
        frame_fits(e, pos, mask),
{
    if has_bit(mask, i as u32) {
        lemma_count_below_strict(mask, i, SLOT_COUNT as nat);
        let at = pos + SLOT_LEN * count_below(mask, i);
        lemma_prefix_subrange(d, e, at, at + SLOT_LEN);
    }
}

/// A frame has as many occupied slots among its first `n` as its mask has
/// bits below `n`.
pub proof fn lemma_occupied_below(slots: Seq<Slot>, n: nat)
    requires
        n <= SLOT_COUNT,
    ensures
        occupied_below(slots, n) == count_below(mask_of(slots), n),
    decreases n,
{
    if n > 0 {
        lemma_occupied_below(slots, (n - 1) as nat);
        lemma_mask_below_bits(slots, SLOT_COUNT as nat, (n - 1) as u32);
    }
}

/// What a stored frame holds: an occupied slot for each set bit of the
/// mask of the reference to it and for no other index, as many occupied
/// slots as that mask has bits, and each of them fit to be stored again.
/// Its stored bytes hold nothing else: eight bytes for each occupied slot,
/// none for an empty one.
pub proof fn lemma_stored_frame_shape(d: Seq<u8>, pos: int, mask: u32)
    ensures
        slots_wf(stored_slots(d, pos, mask)),
        forall|i: int|
            0 <= i < SLOT_COUNT ==> (has_bit(mask, i as u32) <==> !(
            #[trigger] stored_slots(d, pos, mask)[i] is Empty)),
        occupied(stored_slots(d, pos, mask)) == popcount(mask),
        frame_bytes(stored_slots(d, pos, mask)).len() == SLOT_LEN * popcount(mask),
{
    lemma_stored_mask(d, pos, mask);
    lemma_occupied_below(stored_slots(d, pos, mask), SLOT_COUNT as nat);
    lemma_frame_bytes_len(stored_slots(d, pos, mask));
    let slots = stored_slots(d, pos, mask);
    assert forall|i: int| 0 <= i < SLOT_COUNT implies (#[trigger] slots[i]).wf() && (has_bit(
        mask,
        i as u32,
    ) <==> !(slots[i] is Empty)) by {
        if has_bit(mask, i as u32) {
            let at = pos + SLOT_LEN * count_below(mask, i as nat);
            crate::slot::lemma_first_word_bound(d.subrange(at, at + SLOT_LEN));
        }
    }
}

/// The mask of a frame read under `mask` is `mask`.
pub proof fn lemma_stored_mask(d: Seq<u8>, pos: int, mask: u32)
    ensures
        mask_of(stored_slots(d, pos, mask)) == mask,
{
    let slots = stored_slots(d, pos, mask);
    assert forall|j: u32| j < 32 implies has_bit(mask_of(slots), j) == has_bit(mask, j) by {
        lemma_mask_below_bits(slots, SLOT_COUNT as nat, j);
        assert(slots[j as int] == stored_slot(d, pos, mask, j as nat));
    }
    lemma_mask_ext(mask_of(slots), mask);
}

/// Occupying slot `i` sets bit `i` of the frame's mask.
pub proof fn lemma_mask_update(slots: Seq<Slot>, i: int, slot: Slot)
    requires
        slots.len() == SLOT_COUNT,
        0 <= i < SLOT_COUNT,
        !(slot is Empty),
    ensures
        mask_of(slots.update(i, slot)) == mask_of(slots) | bit_of(i as u32),
{
    let new = slots.update(i, slot);
    let target = mask_of(slots) | bit_of(i as u32);
    assert forall|j: u32| j < 32 implies has_bit(mask_of(new), j) == has_bit(target, j) by {
        lemma_mask_below_bits(new, SLOT_COUNT as nat, j);
        lemma_mask_below_bits(slots, SLOT_COUNT as nat, j);
        lemma_has_bit_or(mask_of(slots), i as u32, j);
    }
    lemma_mask_ext(mask_of(new), target);
}

/// A frame without occupied slots has the mask 0.
pub proof fn lemma_mask_empty(slots: Seq<Slot>)
    requires
        slots.len() == SLOT_COUNT,
        forall|i: int| 0 <= i < SLOT_COUNT ==> slots[i] is Empty,
    ensures
        mask_of(slots) == 0,
{
    assert forall|j: u32| j < 32 implies has_bit(mask_of(slots), j) == has_bit(0, j) by {
        lemma_mask_below_bits(slots, SLOT_COUNT as nat, j);
        lemma_has_bit_zero(j);
    }
    lemma_mask_ext(mask_of(slots), 0);
}

impl Frame {
    /// Every frame in memory has 32 slots that can be stored.
    pub open spec fn wf(&self) -> bool {
        slots_wf(self@)
    }

    /// The frame with no occupied slot.
    pub fn empty() -> (f: Frame)
        ensures
            f.wf(),
            forall|i: int| 0 <= i < SLOT_COUNT ==> f@[i] is Empty,
    {
        let mut slots: Vec<Slot> = Vec::new();
        let mut i: usize = 0;
        while i < SLOT_COUNT
            invariant
                i <= SLOT_COUNT,
                slots@.len() == i,
                forall|j: int| 0 <= j < i ==> slots@[j] is Empty,
            decreases SLOT_COUNT - i,
        {
            slots.push(Slot::Empty);
            i = i + 1;
        }
        Frame { slots }
    }

    /// The slot at `index`.
    pub fn lookup(&self, index: SlotIndex) -> (s: Slot)
        requires
            self.wf(),
            index.wf(),
        ensures
            s == self@[index.n as int],
            s.wf(),
    {
        self.slots[index.n]
    }

    /// A copy of the frame in which the slot at `index` is `slot`.
    pub fn with_slot(&self, index: SlotIndex, slot: Slot) -> (f: Frame)
        requires
            self.wf(),
            index.wf(),
            slot.wf(),
        ensures
            f.wf(),
            f@ == self@.update(index.n as int, slot),
    {
        let mut slots: Vec<Slot> = Vec::new();
        let mut i: usize = 0;
        while i < SLOT_COUNT
            invariant
                i <= SLOT_COUNT,
                self.wf(),
                slot.wf(),
                index.wf(),
                slots@.len() == i,
                forall|j: int| 0 <= j < i ==> slots@[j] == self@.update(index.n as int, slot)[j],
            decreases SLOT_COUNT - i,
        {
            if i == index.n {
                slots.push(slot);
            } else {
                slots.push(self.slots[i]);
            }
            i = i + 1;
        }
        assert(slots@ =~= self@.update(index.n as int, slot));
        Frame { slots }
    }

    /// The mask of the occupied slots.
    pub fn mask(&self) -> (m: u32)
        requires
            self.wf(),
        ensures
            m == mask_of(self@),
    {
        let mut m: u32 = 0;
        let mut i: usize = 0;
        while i < SLOT_COUNT
            invariant
                i <= SLOT_COUNT,
                self.wf(),
                m == mask_below(self@, i as nat),
            decreases SLOT_COUNT - i,
        {
            match self.slots[i] {
                Slot::Empty => {},
                _ => {
                    m = m | SlotIndex::at(i).as_mask();
                },
            }
            i = i + 1;
        }
        m
    }

    /// Reads the frame stored at `pos` in `source`, whose occupied indices
    /// are the set bits of `mask`. It fails when the frame does not lie
    /// within `source`.
    pub fn read(pos: usize, mask: u32, source: &[u8]) -> (r: Result<Frame, Error>)
        ensures
            r is Ok <==> frame_fits(source@, pos as int, mask),
            r is Ok ==> r->Ok_0.wf() && r->Ok_0@ == stored_slots(source@, pos as int, mask),
            r is Err ==> r->Err_0 == Error::InvariantViolation,
    {
        let count = count_bits_below(mask, SLOT_COUNT);
        if pos > source.len() || SLOT_LEN * count > source.len() - pos {
            return Err(Error::InvariantViolation);
        }
        let mut slots: Vec<Slot> = Vec::new();
        let mut seen: usize = 0;
        let mut i: usize = 0;
        while i < SLOT_COUNT
            invariant
                i <= SLOT_COUNT,
                frame_fits(source@, pos as int, mask),
                source@.len() <= usize::MAX,
                seen == count_below(mask, i as nat),
                seen <= i,
                slots@.len() == i,
                forall|j: int| 0 <= j < i ==> (#[trigger] slots@[j]).wf(),
                forall|j: int|
                    0 <= j < i ==> slots@[j] == stored_slot(source@, pos as int, mask, j as nat),
            decreases SLOT_COUNT - i,
        {
            if test_bit(mask, i) {
                proof {
                    lemma_count_below_strict(mask, i as nat, SLOT_COUNT as nat);
                    assert(seen < popcount(mask));
                    assert(pos + 8 * seen + 8 <= source@.len());
                }
                match Slot::read(source, pos + SLOT_LEN * seen) {
                    Ok(slot) => {
                        slots.push(slot);
                    },
                    Err(_) => {
                        return Err(Error::InvariantViolation);
                    },
                }
                seen = seen + 1;
            } else {
                slots.push(Slot::Empty);
            }
            i = i + 1;
        }
        assert(slots@ =~= stored_slots(source@, pos as int, mask));
        Ok(Frame { slots })
    }

    /// Appends the occupied slots to the diary, in ascending order of their
    /// index, and returns where they start and which indices they have. It
    /// fails, and writes nothing, when the start cannot be held in the first
    /// word of a slot.
    pub fn write(&self, dest: &mut Writer) -> (r: Result<(u32, u32), Error>)
        requires
            self.wf(),
        ensures
            r is Ok <==> old(dest)@.len() < TOP_BIT,
            r is Ok ==> {
                &&& r->Ok_0.0 == old(dest)@.len()
                &&& r->Ok_0.1 == mask_of(self@)
                &&& final(dest)@ == old(dest)@ + frame_bytes(self@)
                &&& stored_slots(final(dest)@, r->Ok_0.0 as int, r->Ok_0.1) == self@
                &&& frame_fits(final(dest)@, r->Ok_0.0 as int, r->Ok_0.1)
            },
            r is Err ==> r->Err_0 == Error::InvariantViolation && final(dest)@ == old(dest)@,
    {
        let start = dest.end_size();
        if start >= TOP_BIT as usize {
            return Err(Error::InvariantViolation);
        }
        let mut mask: u32 = 0;
        let mut i: usize = 0;
        while i < SLOT_COUNT
            invariant
                i <= SLOT_COUNT,
                self.wf(),
                mask == mask_below(self@, i as nat),
                dest@ == old(dest)@ + bytes_below(self@, i as nat),
            decreases SLOT_COUNT - i,
        {
            let slot = self.slots[i];
            match slot {
                Slot::Empty => {},
                _ => {
                    mask = mask | SlotIndex::at(i).as_mask();
                },
            }
            dest.write_slot(&slot);
            assert(dest@ =~= old(dest)@ + bytes_below(self@, (i + 1) as nat));
            i = i + 1;
        }
        proof {
            let fb = frame_bytes(self@);
            assert(dest@.subrange(start as int, start + fb.len()) =~= fb);
            lemma_frame_round_trip(self@, dest@, start as int);
        }
        Ok((start as u32, mask))
    }
}

} // verus!
