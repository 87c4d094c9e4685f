//! The fixed 8-byte encoding of a trie slot.
//!
//! A slot is two big-endian 32-bit words. The top bit of the first byte tells
//! a value from a reference, so the first word of either kind stays below
//! `TOP_BIT`. An empty slot has no bytes: a frame leaves it out.

use vstd::prelude::*;
use crate::bits::TOP_BIT;
use crate::error::Error;

verus! {

/// Bytes that one stored slot takes.
pub const SLOT_LEN: usize = 8;

#[derive(Debug, Copy, Clone, PartialEq, Eq, Structural)]
pub enum Slot {
    Empty,
    Value { key: u32, value: u32 },
    Ref { pos: u32, mask: u32 },
}

/// The four bytes of `x`, most significant first.
pub open spec fn word_bytes(x: u32) -> Seq<u8> {
    seq![(x >> 24u32) as u8, (x >> 16u32) as u8, (x >> 8u32) as u8, x as u8]
}

/// The word whose bytes, most significant first, are `b0 b1 b2 b3`.
pub open spec fn word_of(b0: u8, b1: u8, b2: u8, b3: u8) -> u32 {
    ((b0 as u32) << 24u32) | ((b1 as u32) << 16u32) | ((b2 as u32) << 8u32) | (b3 as u32)
}

/// The two words of a stored slot, with the kind flag set in the first.
pub open spec fn pair_bytes(flag: bool, a: u32, b: u32) -> Seq<u8> {
    let head = word_bytes(a);
    let first = if flag {
        head[0] | 0x80u8
    } else {
        head[0]
    };
    seq![first, head[1], head[2], head[3]] + word_bytes(b)
}

/// Whether eight stored bytes carry the value flag.
pub open spec fn flag_of(bytes: Seq<u8>) -> bool {
    bytes[0] & 0x80u8 == 0x80u8
}

/// The first word of eight stored bytes, with the flag cleared.
pub open spec fn first_word(bytes: Seq<u8>) -> u32 {
    word_of(bytes[0] & 0x7fu8, bytes[1], bytes[2], bytes[3])
}

/// The second word of eight stored bytes.
pub open spec fn second_word(bytes: Seq<u8>) -> u32 {
    word_of(bytes[4], bytes[5], bytes[6], bytes[7])
}

/// The slot that eight stored bytes stand for. It is never empty.
pub open spec fn decode(bytes: Seq<u8>) -> Slot {
    if flag_of(bytes) {
        Slot::Value { key: first_word(bytes), value: second_word(bytes) }
    } else {
        Slot::Ref { pos: first_word(bytes), mask: second_word(bytes) }
    }
}

impl Slot {
    /// The first word of a stored slot leaves the top bit to the kind flag.
    pub open spec fn wf(&self) -> bool {
        match *self {
            Slot::Empty => true,
            Slot::Value { key, .. } => key < TOP_BIT,
            Slot::Ref { pos, .. } => pos < TOP_BIT,
        }
    }

    /// The stored bytes of the slot: eight, or none for an empty slot.
    pub open spec fn encode(&self) -> Seq<u8> {
        match *self {
            Slot::Empty => Seq::empty(),
            Slot::Value { key, value } => pair_bytes(true, key, value),
            Slot::Ref { pos, mask } => pair_bytes(false, pos, mask),
        }
    }

    /// Decodes the eight bytes of `source` that start at `pos`.
    pub fn read(source: &[u8], pos: usize) -> (r: Result<Slot, Error>)
        ensures
            pos + SLOT_LEN <= source@.len() ==> r == Ok::<Slot, Error>(
                decode(source@.subrange(pos as int, pos + SLOT_LEN)),
            ),
            pos + SLOT_LEN > source@.len() ==> r == Err::<Slot, Error>(Error::Io),
            r is Ok ==> r->Ok_0.wf() && !(r->Ok_0 is Empty),
    {
        match read_data(source, pos) {
            Err(e) => Err(e),
            Ok((flag, a, b)) => {
                if flag {
                    Ok(Slot::Value { key: a, value: b })
                } else {
                    Ok(Slot::Ref { pos: a, mask: b })
                }
            },
        }
    }

    /// Appends the stored bytes of the slot to `dest` and returns how many
    /// they are.
    pub fn write(&self, dest: &mut Vec<u8>) -> (n: usize)
        requires
            self.wf(),
        ensures
            final(dest)@ == old(dest)@ + self.encode(),
            n == self.encode().len(),
            n == if *self is Empty { 0usize } else { SLOT_LEN },
    {
        match *self {
            Slot::Empty => {
                assert(dest@ == old(dest)@ + Seq::<u8>::empty());
                0
            },
            Slot::Value { key, value } => write_data(true, key, value, dest),
            Slot::Ref { pos, mask } => write_data(false, pos, mask, dest),
        }
    }
}

/// Reading back what was written gives the same words.
pub proof fn lemma_word_round_trip(x: u32)
    ensures
        word_of((x >> 24u32) as u8, (x >> 16u32) as u8, (x >> 8u32) as u8, x as u8) == x,
{
    assert((((x >> 24u32) as u8) as u32) << 24u32 | (((x >> 16u32) as u8) as u32) << 16u32 | (((x
        >> 8u32) as u8) as u32) << 8u32 | ((x as u8) as u32) == x) by (bit_vector);
}

/// The flag travels in the top bit of the first byte and leaves the word
/// below it unchanged.
pub proof fn lemma_flag_round_trip(a: u32, flag: bool)
    requires
        a < TOP_BIT,
    ensures
        ({
            let b0 = (a >> 24u32) as u8;
            let first = if flag { b0 | 0x80u8 } else { b0 };
            &&& (first & 0x80u8 == 0x80u8) == flag
            &&& first & 0x7fu8 == b0
        }),
{
    let b0 = (a >> 24u32) as u8;
    assert(b0 & 0x80u8 == 0 && (b0 | 0x80u8) & 0x80u8 == 0x80u8 && (b0 | 0x80u8) & 0x7fu8 == b0
        && b0 & 0x7fu8 == b0) by (bit_vector)
        requires
            b0 == (a >> 24u32) as u8,
            a < 0x8000_0000u32,
    ;
}

/// A decoded first word has its top bit clear.
pub proof fn lemma_first_word_bound(bytes: Seq<u8>)
    ensures
        first_word(bytes) < TOP_BIT,
{
    let b0 = bytes[0];
    let b1 = bytes[1];
    let b2 = bytes[2];
    let b3 = bytes[3];
    assert((((b0 & 0x7fu8) as u32) << 24u32) | ((b1 as u32) << 16u32) | ((b2 as u32) << 8u32) | (
    b3 as u32) < 0x8000_0000u32) by (bit_vector);
}

/// Writing out the word that four bytes stand for gives the four bytes.
pub proof fn lemma_word_bytes_of(b0: u8, b1: u8, b2: u8, b3: u8)
    ensures
        word_bytes(word_of(b0, b1, b2, b3)) == seq![b0, b1, b2, b3],
{
    let x = word_of(b0, b1, b2, b3);
    assert((x >> 24u32) as u8 == b0 && (x >> 16u32) as u8 == b1 && (x >> 8u32) as u8 == b2 && x
        as u8 == b3) by (bit_vector)
        requires
            x == ((b0 as u32) << 24u32) | ((b1 as u32) << 16u32) | ((b2 as u32) << 8u32) | (
            b3 as u32),
    ;
    assert(word_bytes(x) =~= seq![b0, b1, b2, b3]);
}

/// Decoding the stored bytes of a slot gives the slot back. An empty slot
/// has no stored bytes, and a first word with the top bit set cannot be
/// stored, so neither is covered.
pub proof fn lemma_decode_encode(s: Slot)
    requires
        s.wf(),
        !(s is Empty),
    ensures
        s.encode().len() == SLOT_LEN,
        decode(s.encode()) == s,
{
    match s {
        Slot::Empty => {},
        Slot::Value { key, value } => {
            lemma_word_round_trip(key);
            lemma_word_round_trip(value);
            lemma_flag_round_trip(key, true);
        },
        Slot::Ref { pos, mask } => {
            lemma_word_round_trip(pos);
            lemma_word_round_trip(mask);
            lemma_flag_round_trip(pos, false);
        },
    }
}

/// Every eight bytes are the stored bytes of the slot they decode to.
pub proof fn lemma_encode_decode(bytes: Seq<u8>)
    requires
        bytes.len() == SLOT_LEN,
    ensures
        decode(bytes).wf(),
        !(decode(bytes) is Empty),
        decode(bytes).encode() == bytes,
{
    lemma_first_word_bound(bytes);
    let b0 = bytes[0];
    let b1 = bytes[1];
    let b2 = bytes[2];
    let b3 = bytes[3];
    let a = first_word(bytes);
    assert((a >> 24u32) as u8 == b0 & 0x7fu8 && (a >> 16u32) as u8 == b1 && (a >> 8u32) as u8
        == b2 && a as u8 == b3) by (bit_vector)
        requires
            a == (((b0 & 0x7fu8) as u32) << 24u32) | ((b1 as u32) << 16u32) | ((b2 as u32)
                << 8u32) | (b3 as u32),
    ;
    assert((b0 & 0x80u8 == 0x80u8 ==> (b0 & 0x7fu8) | 0x80u8 == b0) && (b0 & 0x80u8 != 0x80u8
        ==> b0 & 0x7fu8 == b0)) by (bit_vector);
    let b4 = bytes[4];
    let b5 = bytes[5];
    let b6 = bytes[6];
    let b7 = bytes[7];
    let b = second_word(bytes);
    assert((b >> 24u32) as u8 == b4 && (b >> 16u32) as u8 == b5 && (b >> 8u32) as u8 == b6 && b
        as u8 == b7) by (bit_vector)
        requires
            b == ((b4 as u32) << 24u32) | ((b5 as u32) << 16u32) | ((b6 as u32) << 8u32) | (
            b7 as u32),
    ;
    assert(decode(bytes).encode() =~= bytes);
}

/// Reads the flag and the two words of the slot stored at `pos`.
fn read_data(source: &[u8], pos: usize) -> (r: Result<(bool, u32, u32), Error>)
    ensures
        pos + SLOT_LEN <= source@.len() ==> r == Ok::<(bool, u32, u32), Error>(
            ({
                let bytes = source@.subrange(pos as int, pos + SLOT_LEN);
                (flag_of(bytes), first_word(bytes), second_word(bytes))
            }),
        ),
        pos + SLOT_LEN > source@.len() ==> r == Err::<(bool, u32, u32), Error>(Error::Io),
        r is Ok ==> r->Ok_0.1 < TOP_BIT,
{
    if source.len() < SLOT_LEN || pos > source.len() - SLOT_LEN {
        return Err(Error::Io);
    }
    let ghost bytes = source@.subrange(pos as int, pos + SLOT_LEN);
    proof {
        lemma_first_word_bound(bytes);
    }
    let flagged = (source[pos] & 0x80u8) == 0x80u8;
    let head: u8 = source[pos] & 0x7fu8;
    let a = u32_of_bytes(head, source[pos + 1], source[pos + 2], source[pos + 3]);
    let b = u32_of_bytes(source[pos + 4], source[pos + 5], source[pos + 6], source[pos + 7]);
    Ok((flagged, a, b))
}

/// Appends the two words to `dest`, the flag in the top bit of the first
/// byte.
fn write_data(flag: bool, a: u32, b: u32, dest: &mut Vec<u8>) -> (n: usize)
    requires
        a < TOP_BIT,
    ensures
        final(dest)@ == old(dest)@ + pair_bytes(flag, a, b),
        n == SLOT_LEN,
{
    let mut head: u8 = (a >> 24u32) as u8;
    if flag {
        head = head | 0x80u8;
    }
    dest.push(head);
    dest.push((a >> 16u32) as u8);
    dest.push((a >> 8u32) as u8);
    dest.push(a as u8);
    dest.push((b >> 24u32) as u8);
    dest.push((b >> 16u32) as u8);
    dest.push((b >> 8u32) as u8);
    dest.push(b as u8);
    assert(dest@ =~= old(dest)@ + pair_bytes(flag, a, b));
    8
}

/// The word whose bytes, most significant first, are `b0 b1 b2 b3`.
pub fn u32_of_bytes(b0: u8, b1: u8, b2: u8, b3: u8) -> (x: u32)
    ensures
        x == word_of(b0, b1, b2, b3),
{
    ((b0 as u32) << 24u32) | ((b1 as u32) << 16u32) | ((b2 as u32) << 8u32) | (b3 as u32)
}

} // verus!
