//! The diary: an append-only byte log with a committed size.
//!
//! The bytes below the committed size never change. A writer appends past
//! it; a reader sees the committed bytes and nothing else.

use vstd::prelude::*;
use vstd::slice::slice_subrange;
use crate::slot::Slot;

verus! {

/// A byte offset in the diary.
#[derive(Debug, Copy, Clone, PartialEq, Eq, Structural)]
pub struct Pos {
    start: usize,
}

impl View for Pos {
    type V = nat;

    closed spec fn view(&self) -> nat {
        self.start as nat
    }
}

impl Pos {
    /// The position `start` bytes from the beginning of the diary.
    pub closed spec fn at_spec(start: usize) -> Pos {
        Pos { start }
    }

    /// The position `start` bytes from the beginning of the diary.
    pub fn at(start: usize) -> (p: Self)
        ensures
            p@ == start,
            p == Self::at_spec(start),
    {
        Pos { start }
    }

    /// The offset itself.
    pub fn start(&self) -> (n: usize)
        ensures
            n == self@,
    {
        self.start
    }

    /// The offset narrowed to the 32 bits that a slot can hold: its value
    /// modulo 2^32.
    pub fn u32(&self) -> (n: u32)
        ensures
            n as int == self@ % 0x1_0000_0000,
            self@ <= u32::MAX ==> n == self@,
    {
        let wide: u64 = self.start as u64;
        assert(wide as u32 == wide % 0x1_0000_0000) by (bit_vector);
        wide as u32
    }

    /// The offset in decimal digits.
    pub fn to_string(&self) -> (text: String)
        ensures
            text@ == crate::names::decimal(self@),
    {
        crate::names::decimal_text(self.start as u64)
    }

    /// The position `rhs` bytes after this one, if it can be addressed.
    pub fn plus(&self, rhs: Pos) -> (r: Option<Pos>)
        ensures
            r is Some <==> self@ + rhs@ <= usize::MAX,
            r is Some ==> r->Some_0@ == self@ + rhs@,
    {
        match self.start.checked_add(rhs.start) {
            Some(start) => Some(Pos { start }),
            None => None,
        }
    }
}

impl From<usize> for Pos {
    fn from(n: usize) -> (p: Pos) {
        Pos { start: n }
    }
}

impl vstd::std_specs::convert::FromSpecImpl<usize> for Pos {
    open spec fn obeys_from_spec() -> bool {
        true
    }

    closed spec fn from_spec(n: usize) -> Pos {
        Pos { start: n }
    }
}

/// The position made from a number is that many bytes from the beginning.
pub proof fn lemma_pos_from(n: usize)
    ensures
        <Pos as vstd::std_specs::convert::FromSpec<usize>>::from_spec(n)@ == n,
        <Pos as vstd::std_specs::convert::FromSpec<usize>>::from_spec(n) == Pos::at_spec(n),
{
}

/// Where the parts of one stored fact begin, and where the fact ends.
#[derive(Debug, Copy, Clone, PartialEq, Eq, Structural)]
pub struct SayPos {
    pub sayer: Pos,
    pub object: Pos,
    pub point: Pos,
    pub target: Pos,
    pub end: Pos,
}

/// The handle of a diary: the name of its file and its committed size.
pub struct Diary {
    pub file_path: String,
    pub file_size: usize,
}

/// Appends to the diary. It holds the committed bytes and, after them, what
/// has been written since.
pub struct Writer {
    bytes: Vec<u8>,
}

/// Reads the bytes that were committed when the reader was made.
pub struct Reader {
    bytes: Vec<u8>,
}

impl View for Writer {
    type V = Seq<u8>;

    closed spec fn view(&self) -> Seq<u8> {
        self.bytes@
    }
}

impl View for Reader {
    type V = Seq<u8>;

    closed spec fn view(&self) -> Seq<u8> {
        self.bytes@
    }
}

/// The first `size` bytes of a file that holds `contents`, as they stand
/// once the file has been cut or zero-filled to that size.
pub open spec fn resized(contents: Seq<u8>, size: nat) -> Seq<u8> {
    Seq::new(size, |i: int| if i < contents.len() { contents[i] } else { 0u8 })
}

/// Whether `a` is the beginning of `b`.
pub open spec fn is_prefix(a: Seq<u8>, b: Seq<u8>) -> bool {
    a.len() <= b.len() && b.subrange(0, a.len() as int) == a
}

pub proof fn lemma_prefix_refl(a: Seq<u8>)
    ensures
        is_prefix(a, a),
{
    assert(a.subrange(0, a.len() as int) =~= a);
}

pub proof fn lemma_prefix_extend(a: Seq<u8>, b: Seq<u8>)
    ensures
        is_prefix(a, a + b),
{
    assert((a + b).subrange(0, a.len() as int) =~= a);
}

pub proof fn lemma_prefix_trans(a: Seq<u8>, b: Seq<u8>, c: Seq<u8>)
    requires
        is_prefix(a, b),
        is_prefix(b, c),
    ensures
        is_prefix(a, c),
{
    assert(c.subrange(0, a.len() as int) =~= b.subrange(0, a.len() as int));
}

/// A range inside a prefix reads the same in the longer sequence.
pub proof fn lemma_prefix_subrange(a: Seq<u8>, b: Seq<u8>, from: int, to: int)
    requires
        is_prefix(a, b),
        0 <= from <= to <= a.len(),
    ensures
        b.subrange(from, to) == a.subrange(from, to),
{
    assert(b.subrange(from, to) =~= b.subrange(0, a.len() as int).subrange(from, to));
}

/// Cutting a file back to its committed size drops what was written past
/// it and nothing else.
pub proof fn lemma_resized_drops_tail(committed: Seq<u8>, tail: Seq<u8>)
    ensures
        resized(committed + tail, committed.len()) == committed,
        resized(committed, committed.len()) == committed,
{
    assert(resized(committed + tail, committed.len()) =~= committed);
    assert(resized(committed, committed.len()) =~= committed);
}

impl Diary {
    /// A name for the file of a scratch diary: `diary` and a number drawn
    /// at random.
    pub fn temp_name() -> (name: String)
        ensures
            crate::names::is_numbered(name@, "diary"@),
    {
        crate::names::unique_name("diary")
    }

    /// The diary of the file `file_path`, all of whose `file_len` bytes
    /// count as committed.
    pub fn load(file_path: String, file_len: usize) -> (d: Diary)
        ensures
            d.file_path == file_path,
            d.file_size == file_len,
    {
        Diary { file_path, file_size: file_len }
    }

    /// Moves the committed size to the end of what `writer` has written.
    pub fn commit(&mut self, writer: &Writer)
        ensures
            final(self).file_size == writer@.len(),
            final(self).file_path == old(self).file_path,
    {
        self.file_size = writer.end_size();
    }

    /// The committed size.
    pub fn len_in_bytes(&self) -> (n: usize)
        ensures
            n == self.file_size,
    {
        self.file_size
    }

    /// A writer that stands at the committed size. Of the file's `contents`
    /// it keeps the committed bytes: what lies past them is dropped, and a
    /// file that is too short is filled with zeros.
    pub fn writer(&self, contents: Vec<u8>) -> (w: Writer)
        ensures
            w@ == resized(contents@, self.file_size as nat),
    {
        let mut bytes = contents;
        if bytes.len() > self.file_size {
            bytes.truncate(self.file_size);
        }
        while bytes.len() < self.file_size
            invariant
                bytes@.len() <= self.file_size,
                contents@.len() <= bytes@.len() || bytes@.len() == self.file_size,
                bytes@ == resized(contents@, bytes@.len()),
            decreases self.file_size - bytes@.len(),
        {
            bytes.push(0u8);
            assert(bytes@ =~= resized(contents@, bytes@.len()));
        }
        Writer { bytes }
    }

    /// A reader of the committed bytes of a file that holds `contents`.
    /// Nothing past the committed size can be read through it.
    pub fn reader(&self, contents: &[u8]) -> (r: Reader)
        ensures
            r@ == resized(contents@, self.file_size as nat),
    {
        let mut bytes: Vec<u8> = Vec::new();
        let mut i: usize = 0;
        while i < self.file_size
            invariant
                i <= self.file_size,
                bytes@ == resized(contents@, i as nat),
            decreases self.file_size - i,
        {
            let b: u8 = if i < contents.len() {
                contents[i]
            } else {
                0u8
            };
            bytes.push(b);
            i = i + 1;
        }
        Reader { bytes }
    }
}

impl Writer {
    /// A writer at the start of an empty diary.
    pub fn new() -> (w: Writer)
        ensures
            w@ == Seq::<u8>::empty(),
    {
        Writer { bytes: Vec::new() }
    }

    /// The size of the diary with everything written so far.
    pub fn end_size(&self) -> (n: usize)
        ensures
            n == self@.len(),
    {
        self.bytes.len()
    }

    /// All bytes of the diary, written ones included.
    pub fn as_slice(&self) -> (s: &[u8])
        ensures
            s@ == self@,
    {
        self.bytes.as_slice()
    }

    /// Appends `data` and returns the offset at which it starts.
    pub fn write(&mut self, data: &[u8]) -> (pos: usize)
        ensures
            pos == old(self)@.len(),
            final(self)@ == old(self)@ + data@,
    {
        let pos = self.bytes.len();
        let mut i: usize = 0;
        while i < data.len()
            invariant
                i <= data@.len(),
                self.bytes@ == old(self).bytes@ + data@.subrange(0, i as int),
            decreases data@.len() - i,
        {
            self.bytes.push(data[i]);
            i = i + 1;
        }
        assert(data@.subrange(0, data@.len() as int) == data@);
        pos
    }

    /// Appends the stored bytes of `slot` and returns how many they are.
    pub fn write_slot(&mut self, slot: &Slot) -> (n: usize)
        requires
            slot.wf(),
        ensures
            final(self)@ == old(self)@ + slot.encode(),
            n == slot.encode().len(),
    {
        slot.write(&mut self.bytes)
    }

    /// The bytes written from offset `from` on.
    pub fn written_since(&self, from: usize) -> (tail: Vec<u8>)
        ensures
            from <= self@.len() ==> tail@ == self@.subrange(from as int, self@.len() as int),
            from > self@.len() ==> tail@ == Seq::<u8>::empty(),
    {
        let mut tail: Vec<u8> = Vec::new();
        if from > self.bytes.len() {
            return tail;
        }
        let mut i: usize = from;
        while i < self.bytes.len()
            invariant
                from <= i <= self.bytes@.len(),
                tail@ == self.bytes@.subrange(from as int, i as int),
            decreases self.bytes@.len() - i,
        {
            tail.push(self.bytes[i]);
            i = i + 1;
        }
        tail
    }

    /// Drops what was written past offset `size`.
    pub fn rewind(&mut self, size: usize)
        ensures
            size <= old(self)@.len() ==> final(self)@ == old(self)@.subrange(0, size as int),
            size > old(self)@.len() ==> final(self)@ == old(self)@,
    {
        if size <= self.bytes.len() {
            self.bytes.truncate(size);
        }
    }

    /// A reader of everything written so far.
    pub fn reader(&self) -> (r: Reader)
        ensures
            r@ == self@,
    {
        let mut bytes: Vec<u8> = Vec::new();
        let mut i: usize = 0;
        while i < self.bytes.len()
            invariant
                i <= self.bytes@.len(),
                bytes@ == self.bytes@.subrange(0, i as int),
            decreases self.bytes@.len() - i,
        {
            bytes.push(self.bytes[i]);
            i = i + 1;
        }
        assert(self.bytes@.subrange(0, self.bytes@.len() as int) == self.bytes@);
        Reader { bytes }
    }
}

impl Reader {
    /// Number of bytes that can be read.
    pub fn len(&self) -> (n: usize)
        ensures
            n == self@.len(),
    {
        self.bytes.len()
    }

    /// The readable bytes.
    pub fn as_slice(&self) -> (s: &[u8])
        ensures
            s@ == self@,
    {
        self.bytes.as_slice()
    }

    /// The `len` bytes at `pos`, if they all lie among the readable bytes.
    pub fn read_at(&self, pos: usize, len: usize) -> (r: Option<&[u8]>)
        ensures
            r is Some <==> pos + len <= self@.len(),
            r is Some ==> r->Some_0@ == self@.subrange(pos as int, pos + len),
    {
        if pos > self.bytes.len() || len > self.bytes.len() - pos {
            None
        } else {
            Some(slice_subrange(self.bytes.as_slice(), pos, pos + len))
        }
    }
}

} // verus!
