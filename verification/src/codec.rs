//! How the parts of a fact are stored in the diary, and the hash by which
//! the tries find them.
//!
//! Every part starts with a tag byte. A number follows its tag as eight
//! bytes, most significant first; a text as its length in four bytes and its
//! UTF-8 bytes. Equal parts are stored as equal bytes, so they have equal
//! hashes.

use vstd::prelude::*;
use vstd::slice::slice_subrange;
use vstd::utf8::{decode_utf8, encode_utf8, valid_utf8};
use crate::bits::TOP_BIT;
use crate::error::Error;
use crate::diary::{Pos, Reader, SayPos, Writer};
use crate::fact::{ObjectId, Point, Ring, Say, Sayer, Target};
use crate::slot::{lemma_word_bytes_of, lemma_word_round_trip, u32_of_bytes, word_bytes, word_of};

verus! {

pub const TAG_UNIT: u8 = 0;

pub const TAG_NUMBER: u8 = 1;

pub const TAG_TEXT: u8 = 2;

pub const TAG_STATIC: u8 = 3;

/// Start value of the hash.
pub const HASH_BASIS: u32 = 0x811c_9dc5;

/// Multiplier of the hash.
pub const HASH_PRIME: u32 = 0x0100_0193;

/// The stored bytes of a text: its length and its UTF-8 bytes.
pub open spec fn text_bytes(chars: Seq<char>) -> Seq<u8> {
    word_bytes(encode_utf8(chars).len() as u32) + encode_utf8(chars)
}

/// A text can be stored when its length fits below the kind flag.
pub open spec fn text_fits(chars: Seq<char>) -> bool {
    encode_utf8(chars).len() < TOP_BIT
}

/// The eight bytes of a number, most significant first.
pub open spec fn number_bytes(n: u64) -> Seq<u8> {
    word_bytes((n >> 32u64) as u32) + word_bytes(n as u32)
}

/// The number whose upper and lower halves are `hi` and `lo`.
pub open spec fn number_of(hi: u32, lo: u32) -> u64 {
    ((hi as u64) << 32u64) | (lo as u64)
}

/// The stored bytes of a part that is either the unit or a name.
pub open spec fn name_bytes(name: Option<Seq<char>>) -> Seq<u8> {
    match name {
        None => seq![TAG_UNIT],
        Some(chars) => seq![TAG_TEXT] + text_bytes(chars),
    }
}

pub open spec fn name_fits(name: Option<Seq<char>>) -> bool {
    match name {
        None => true,
        Some(chars) => text_fits(chars),
    }
}

pub open spec fn sayer_name(s: Sayer) -> Option<Seq<char>> {
    match s {
        Sayer::Unit => None,
        Sayer::Named(n) => Some(n@),
    }
}

pub open spec fn object_name(o: ObjectId) -> Option<Seq<char>> {
    match o {
        ObjectId::Unit => None,
        ObjectId::String(n) => Some(n@),
    }
}

pub open spec fn point_name(p: Point) -> Option<Seq<char>> {
    match p {
        Point::Unit => None,
        Point::Named(n) => Some(n@),
    }
}

/// The stored bytes of a sayer.
pub open spec fn sayer_bytes(s: Sayer) -> Seq<u8> {
    name_bytes(sayer_name(s))
}

/// The stored bytes of an object.
pub open spec fn object_bytes(o: ObjectId) -> Seq<u8> {
    name_bytes(object_name(o))
}

/// The stored bytes of a point.
pub open spec fn point_bytes(p: Point) -> Seq<u8> {
    name_bytes(point_name(p))
}

/// The stored bytes of a ring.
pub open spec fn ring_bytes(r: Ring) -> Seq<u8> {
    match r {
        Ring::Unit => seq![TAG_UNIT],
        Ring::Static { name, aspect } => seq![TAG_STATIC] + text_bytes(name@) + text_bytes(
            aspect@,
        ),
    }
}

pub open spec fn ring_fits(r: Ring) -> bool {
    match r {
        Ring::Unit => true,
        Ring::Static { name, aspect } => text_fits(name@) && text_fits(aspect@),
    }
}

/// The stored bytes of a target.
pub open spec fn target_bytes(t: Target) -> Seq<u8> {
    match t {
        Target::Number(n) => seq![TAG_NUMBER] + number_bytes(n),
        Target::Text(s) => seq![TAG_TEXT] + text_bytes(s@),
    }
}

pub open spec fn target_fits(t: Target) -> bool {
    match t {
        Target::Number(_) => true,
        Target::Text(s) => text_fits(s@),
    }
}

/// The length that the four bytes at `pos` give.
pub open spec fn text_len(d: Seq<u8>, pos: int) -> int {
    word_of(d[pos], d[pos + 1], d[pos + 2], d[pos + 3]) as int
}

/// Where the text stored at `pos` ends.
pub open spec fn text_end(d: Seq<u8>, pos: int) -> int {
    pos + 4 + text_len(d, pos)
}

/// Whether a text is stored at `pos`: a length, and as many bytes of valid
/// UTF-8, all within `d`.
pub open spec fn text_at(d: Seq<u8>, pos: int) -> bool {
    &&& 0 <= pos
    &&& pos + 4 <= d.len()
    &&& text_end(d, pos) <= d.len()
    &&& valid_utf8(d.subrange(pos + 4, text_end(d, pos)))
}

/// Whether a unit or a name is stored at `pos`.
pub open spec fn name_at(d: Seq<u8>, pos: int) -> bool {
    &&& 0 <= pos < d.len()
    &&& d[pos] == TAG_UNIT || (d[pos] == TAG_TEXT && text_at(d, pos + 1))
}

/// Where the unit or name stored at `pos` ends.
pub open spec fn name_end(d: Seq<u8>, pos: int) -> int {
    if d[pos] == TAG_UNIT {
        pos + 1
    } else {
        text_end(d, pos + 1)
    }
}

/// Whether a ring is stored at `pos`.
pub open spec fn ring_at(d: Seq<u8>, pos: int) -> bool {
    &&& 0 <= pos < d.len()
    &&& d[pos] == TAG_UNIT || (d[pos] == TAG_STATIC && text_at(d, pos + 1) && text_at(
        d,
        text_end(d, pos + 1),
    ))
}

/// Where the ring stored at `pos` ends.
pub open spec fn ring_end(d: Seq<u8>, pos: int) -> int {
    if d[pos] == TAG_UNIT {
        pos + 1
    } else {
        text_end(d, text_end(d, pos + 1))
    }
}

/// Whether a target is stored at `pos`.
pub open spec fn target_at(d: Seq<u8>, pos: int) -> bool {
    &&& 0 <= pos < d.len()
    &&& (d[pos] == TAG_NUMBER && pos + 9 <= d.len()) || (d[pos] == TAG_TEXT && text_at(
        d,
        pos + 1,
    ))
}

/// Where the target stored at `pos` ends.
pub open spec fn target_end(d: Seq<u8>, pos: int) -> int {
    if d[pos] == TAG_NUMBER {
        pos + 9
    } else {
        text_end(d, pos + 1)
    }
}

/// The hash of `bytes` before it is cut to 31 bits: each byte is mixed in
/// with exclusive or, then the hash is multiplied.
pub open spec fn mix(bytes: Seq<u8>) -> u32
    decreases bytes.len(),
{
    if bytes.len() == 0 {
        HASH_BASIS
    } else {
        (mix(bytes.drop_last()) ^ (bytes.last() as u32)).wrapping_mul(HASH_PRIME)
    }
}

/// The hash under which the tries keep a part with the stored bytes
/// `bytes`. It leaves the top bit to the kind flag of a slot.
pub open spec fn key_hash(bytes: Seq<u8>) -> u32 {
    mix(bytes) & 0x7fff_ffffu32
}

pub proof fn lemma_key_hash_bound(bytes: Seq<u8>)
    ensures
        key_hash(bytes) < TOP_BIT,
{
    let m = mix(bytes);
    assert(m & 0x7fff_ffffu32 < 0x8000_0000u32) by (bit_vector);
}

/// The two halves of a number give the number back.
pub proof fn lemma_number_halves(hi: u32, lo: u32)
    ensures
        (number_of(hi, lo) >> 32u64) as u32 == hi,
        number_of(hi, lo) as u32 == lo,
{
    assert(((((hi as u64) << 32u64) | (lo as u64)) >> 32u64) as u32 == hi && (((hi as u64)
        << 32u64) | (lo as u64)) as u32 == lo) by (bit_vector);
}

/// Computes the hash of stored bytes.
pub fn hash_bytes(bytes: &[u8]) -> (h: u32)
    ensures
        h == key_hash(bytes@),
        h < TOP_BIT,
{
    let mut m: u32 = HASH_BASIS;
    let mut i: usize = 0;
    while i < bytes.len()
        invariant
            i <= bytes@.len(),
            m == mix(bytes@.subrange(0, i as int)),
        decreases bytes@.len() - i,
    {
        proof {
            let next = bytes@.subrange(0, i + 1);
            assert(next.drop_last() =~= bytes@.subrange(0, i as int));
        }
        m = (m ^ (bytes[i] as u32)).wrapping_mul(HASH_PRIME);
        i = i + 1;
    }
    proof {
        assert(bytes@.subrange(0, bytes@.len() as int) =~= bytes@);
        lemma_key_hash_bound(bytes@);
    }
    m & 0x7fff_ffffu32
}

/// Converts bytes to the text they encode, with `String::from_utf8`. The
/// text exists when the bytes are valid UTF-8, and is then the one that
/// they encode.
#[verifier::external_body]
fn text_of_utf8(bytes: Vec<u8>) -> (r: Option<String>)
    ensures
        r is Some <==> valid_utf8(bytes@),
        r is Some ==> r->Some_0@ == decode_utf8(bytes@),
{
    String::from_utf8(bytes).ok()
}

/// Appends the four bytes of `x`, most significant first.
fn push_word(out: &mut Vec<u8>, x: u32)
    ensures
        final(out)@ == old(out)@ + word_bytes(x),
{
    out.push((x >> 24u32) as u8);
    out.push((x >> 16u32) as u8);
    out.push((x >> 8u32) as u8);
    out.push(x as u8);
    assert(out@ =~= old(out)@ + word_bytes(x));
}

/// Appends the stored bytes of `text`. It appends nothing and answers
/// `false` when the text is too long to store.
fn push_text(out: &mut Vec<u8>, text: &str) -> (ok: bool)
    ensures
        ok == text_fits(text@),
        ok ==> final(out)@ == old(out)@ + text_bytes(text@),
        !ok ==> final(out)@ == old(out)@,
{
    let bytes = text.as_bytes();
    if bytes.len() >= TOP_BIT as usize {
        return false;
    }
    push_word(out, bytes.len() as u32);
    let ghost mid = out@;
    let mut i: usize = 0;
    while i < bytes.len()
        invariant
            i <= bytes@.len(),
            out@ == mid + bytes@.subrange(0, i as int),
        decreases bytes@.len() - i,
    {
        out.push(bytes[i]);
        assert(out@ =~= mid + bytes@.subrange(0, i + 1));
        i = i + 1;
    }
    assert(bytes@.subrange(0, bytes@.len() as int) =~= bytes@);
    assert(out@ =~= old(out)@ + text_bytes(text@));
    true
}

/// Reads the text stored at `pos` and tells where it ends.
fn take_text(source: &[u8], pos: usize) -> (r: Option<(String, usize)>)
    ensures
        r is Some <==> text_at(source@, pos as int),
        r is Some ==> {
            &&& r->Some_0.1 == text_end(source@, pos as int)
            &&& text_bytes(r->Some_0.0@) == source@.subrange(pos as int, r->Some_0.1 as int)
        },
{
    let len = source.len();
    if len < 4 || pos > len - 4 {
        return None;
    }
    let n = u32_of_bytes(source[pos], source[pos + 1], source[pos + 2], source[pos + 3]) as usize;
    if n > len - 4 - pos {
        return None;
    }
    let end = pos + 4 + n;
    let part = slice_subrange(source, pos + 4, end);
    let mut bytes: Vec<u8> = Vec::new();
    let mut i: usize = 0;
    while i < part.len()
        invariant
            i <= part@.len(),
            bytes@ == part@.subrange(0, i as int),
        decreases part@.len() - i,
    {
        bytes.push(part[i]);
        assert(bytes@ =~= part@.subrange(0, i + 1));
        i = i + 1;
    }
    assert(bytes@ =~= part@);
    match text_of_utf8(bytes) {
        None => None,
        Some(text) => {
            proof {
                vstd::utf8::decode_utf8_encode_utf8(part@);
                lemma_word_bytes_of(
                    source@[pos as int],
                    source@[pos + 1],
                    source@[pos + 2],
                    source@[pos + 3],
                );
                assert(text_bytes(text@) =~= source@.subrange(pos as int, end as int));
            }
            Some((text, end))
        },
    }
}

/// Appends the stored bytes of a unit or a name.
fn push_name(out: &mut Vec<u8>, name: Option<&str>) -> (ok: bool)
    ensures
        ok == name_fits(
            match name {
                None => None,
                Some(n) => Some(n@),
            },
        ),
        ok ==> final(out)@ == old(out)@ + name_bytes(
            match name {
                None => None,
                Some(n) => Some(n@),
            },
        ),
{
    match name {
        None => {
            out.push(TAG_UNIT);
            assert(out@ =~= old(out)@ + seq![TAG_UNIT]);
            true
        },
        Some(n) => {
            out.push(TAG_TEXT);
            let ok = push_text(out, n);
            assert(ok ==> out@ =~= old(out)@ + (seq![TAG_TEXT] + text_bytes(n@)));
            ok
        },
    }
}

/// Reads the unit or name stored at `pos` and tells where it ends.
fn take_name(source: &[u8], pos: usize) -> (r: Option<(Option<String>, usize)>)
    ensures
        r is Some <==> name_at(source@, pos as int),
        r is Some ==> {
            &&& r->Some_0.1 == name_end(source@, pos as int)
            &&& name_bytes(
                match r->Some_0.0 {
                    None => None,
                    Some(n) => Some(n@),
                },
            ) == source@.subrange(pos as int, r->Some_0.1 as int)
        },
{
    if pos >= source.len() {
        return None;
    }
    let tag = source[pos];
    if tag == TAG_UNIT {
        assert(seq![TAG_UNIT] =~= source@.subrange(pos as int, pos + 1));
        Some((None, pos + 1))
    } else if tag == TAG_TEXT {
        match take_text(source, pos + 1) {
            None => None,
            Some((text, end)) => {
                assert(seq![TAG_TEXT] + text_bytes(text@) =~= source@.subrange(
                    pos as int,
                    end as int,
                ));
                Some((Some(text), end))
            },
        }
    } else {
        None
    }
}

/// The stored bytes of a sayer, if its name is short enough to store.
pub fn sayer_payload(sayer: &Sayer) -> (r: Result<Vec<u8>, Error>)
    ensures
        r is Ok <==> name_fits(sayer_name(*sayer)),
        r is Ok ==> r->Ok_0@ == sayer_bytes(*sayer),
        r is Err ==> r->Err_0 == Error::InvariantViolation,
{
    let mut out: Vec<u8> = Vec::new();
    let ok = match sayer {
        Sayer::Unit => push_name(&mut out, None),
        Sayer::Named(n) => push_name(&mut out, Some(n.as_str())),
    };
    if ok {
        Ok(out)
    } else {
        Err(Error::InvariantViolation)
    }
}

/// The stored bytes of an object, if its name is short enough to store.
pub fn object_payload(object: &ObjectId) -> (r: Result<Vec<u8>, Error>)
    ensures
        r is Ok <==> name_fits(object_name(*object)),
        r is Ok ==> r->Ok_0@ == object_bytes(*object),
        r is Err ==> r->Err_0 == Error::InvariantViolation,
{
    let mut out: Vec<u8> = Vec::new();
    let ok = match object {
        ObjectId::Unit => push_name(&mut out, None),
        ObjectId::String(n) => push_name(&mut out, Some(n.as_str())),
    };
    if ok {
        Ok(out)
    } else {
        Err(Error::InvariantViolation)
    }
}

/// The stored bytes of a point, if its name is short enough to store.
pub fn point_payload(point: &Point) -> (r: Result<Vec<u8>, Error>)
    ensures
        r is Ok <==> name_fits(point_name(*point)),
        r is Ok ==> r->Ok_0@ == point_bytes(*point),
        r is Err ==> r->Err_0 == Error::InvariantViolation,
{
    let mut out: Vec<u8> = Vec::new();
    let ok = match point {
        Point::Unit => push_name(&mut out, None),
        Point::Named(n) => push_name(&mut out, Some(n.as_str())),
    };
    if ok {
        Ok(out)
    } else {
        Err(Error::InvariantViolation)
    }
}

/// The stored bytes of a ring, if its texts are short enough to store.
pub fn ring_payload(ring: &Ring) -> (r: Result<Vec<u8>, Error>)
    ensures
        r is Ok <==> ring_fits(*ring),
        r is Ok ==> r->Ok_0@ == ring_bytes(*ring),
        r is Err ==> r->Err_0 == Error::InvariantViolation,
{
    let mut out: Vec<u8> = Vec::new();
    match ring {
        Ring::Unit => {
            out.push(TAG_UNIT);
            assert(out@ =~= seq![TAG_UNIT]);
            Ok(out)
        },
        Ring::Static { name, aspect } => {
            out.push(TAG_STATIC);
            if !push_text(&mut out, name.as_str()) {
                return Err(Error::InvariantViolation);
            }
            if !push_text(&mut out, aspect.as_str()) {
                return Err(Error::InvariantViolation);
            }
            assert(out@ =~= seq![TAG_STATIC] + text_bytes(name@) + text_bytes(aspect@));
            Ok(out)
        },
    }
}

/// The stored bytes of a target, if its text is short enough to store.
pub fn target_payload(target: &Target) -> (r: Result<Vec<u8>, Error>)
    ensures
        r is Ok <==> target_fits(*target),
        r is Ok ==> r->Ok_0@ == target_bytes(*target),
        r is Err ==> r->Err_0 == Error::InvariantViolation,
{
    let mut out: Vec<u8> = Vec::new();
    match target {
        Target::Number(n) => {
            out.push(TAG_NUMBER);
            push_word(&mut out, (*n >> 32u64) as u32);
            push_word(&mut out, *n as u32);
            assert(out@ =~= seq![TAG_NUMBER] + number_bytes(*n));
            Ok(out)
        },
        Target::Text(s) => {
            out.push(TAG_TEXT);
            if !push_text(&mut out, s.as_str()) {
                return Err(Error::InvariantViolation);
            }
            assert(out@ =~= seq![TAG_TEXT] + text_bytes(s@));
            Ok(out)
        },
    }
}

/// Reads the sayer stored at `pos` and tells where it ends.
pub fn read_sayer(source: &[u8], pos: usize) -> (r: Result<(Sayer, usize), Error>)
    ensures
        r is Ok <==> name_at(source@, pos as int),
        r is Ok ==> r->Ok_0.1 == name_end(source@, pos as int) && sayer_bytes(r->Ok_0.0)
            == source@.subrange(pos as int, r->Ok_0.1 as int),
        r is Err ==> r->Err_0 == Error::InvariantViolation,
{
    match take_name(source, pos) {
        None => Err(Error::InvariantViolation),
        Some((None, end)) => Ok((Sayer::Unit, end)),
        Some((Some(n), end)) => Ok((Sayer::Named(n), end)),
    }
}

/// Reads the object stored at `pos` and tells where it ends.
pub fn read_object(source: &[u8], pos: usize) -> (r: Result<(ObjectId, usize), Error>)
    ensures
        r is Ok <==> name_at(source@, pos as int),
        r is Ok ==> r->Ok_0.1 == name_end(source@, pos as int) && object_bytes(r->Ok_0.0)
            == source@.subrange(pos as int, r->Ok_0.1 as int),
        r is Err ==> r->Err_0 == Error::InvariantViolation,
{
    match take_name(source, pos) {
        None => Err(Error::InvariantViolation),
        Some((None, end)) => Ok((ObjectId::Unit, end)),
        Some((Some(n), end)) => Ok((ObjectId::String(n), end)),
    }
}

/// Reads the point stored at `pos` and tells where it ends.
pub fn read_point(source: &[u8], pos: usize) -> (r: Result<(Point, usize), Error>)
    ensures
        r is Ok <==> name_at(source@, pos as int),
        r is Ok ==> r->Ok_0.1 == name_end(source@, pos as int) && point_bytes(r->Ok_0.0)
            == source@.subrange(pos as int, r->Ok_0.1 as int),
        r is Err ==> r->Err_0 == Error::InvariantViolation,
{
    match take_name(source, pos) {
        None => Err(Error::InvariantViolation),
        Some((None, end)) => Ok((Point::Unit, end)),
        Some((Some(n), end)) => Ok((Point::Named(n), end)),
    }
}

/// Reads the ring stored at `pos` and tells where it ends.
pub fn read_ring(source: &[u8], pos: usize) -> (r: Result<(Ring, usize), Error>)
    ensures
        r is Ok <==> ring_at(source@, pos as int),
        r is Ok ==> r->Ok_0.1 == ring_end(source@, pos as int) && ring_bytes(r->Ok_0.0)
            == source@.subrange(pos as int, r->Ok_0.1 as int),
        r is Err ==> r->Err_0 == Error::InvariantViolation,
{
    if pos >= source.len() {
        return Err(Error::InvariantViolation);
    }
    let tag = source[pos];
    if tag == TAG_UNIT {
        assert(seq![TAG_UNIT] =~= source@.subrange(pos as int, pos + 1));
        Ok((Ring::Unit, pos + 1))
    } else if tag == TAG_STATIC {
        let (name, mid) = match take_text(source, pos + 1) {
            None => {
                return Err(Error::InvariantViolation);
            },
            Some(found) => found,
        };
        let (aspect, end) = match take_text(source, mid) {
            None => {
                return Err(Error::InvariantViolation);
            },
            Some(found) => found,
        };
        assert(seq![TAG_STATIC] + text_bytes(name@) + text_bytes(aspect@) =~= source@.subrange(
            pos as int,
            end as int,
        ));
        Ok((Ring::Static { name, aspect }, end))
    } else {
        Err(Error::InvariantViolation)
    }
}

/// Reads the target stored at `pos` and tells where it ends.
pub fn read_target(source: &[u8], pos: usize) -> (r: Result<(Target, usize), Error>)
    ensures
        r is Ok <==> target_at(source@, pos as int),
        r is Ok ==> r->Ok_0.1 == target_end(source@, pos as int) && target_bytes(r->Ok_0.0)
            == source@.subrange(pos as int, r->Ok_0.1 as int),
        r is Err ==> r->Err_0 == Error::InvariantViolation,
{
    let len = source.len();
    if pos >= len {
        return Err(Error::InvariantViolation);
    }
    let tag = source[pos];
    if tag == TAG_NUMBER {
        if len - pos < 9 {
            return Err(Error::InvariantViolation);
        }
        let hi = u32_of_bytes(source[pos + 1], source[pos + 2], source[pos + 3], source[pos + 4]);
        let lo = u32_of_bytes(source[pos + 5], source[pos + 6], source[pos + 7], source[pos + 8]);
        let n: u64 = ((hi as u64) << 32u64) | (lo as u64);
        proof {
            lemma_number_halves(hi, lo);
            lemma_word_bytes_of(
                source@[pos + 1],
                source@[pos + 2],
                source@[pos + 3],
                source@[pos + 4],
            );
            lemma_word_bytes_of(
                source@[pos + 5],
                source@[pos + 6],
                source@[pos + 7],
                source@[pos + 8],
            );
            assert(seq![TAG_NUMBER] + number_bytes(n) =~= source@.subrange(pos as int, pos + 9));
        }
        Ok((Target::Number(n), pos + 9))
    } else if tag == TAG_TEXT {
        match take_text(source, pos + 1) {
            None => Err(Error::InvariantViolation),
            Some((text, end)) => {
                assert(seq![TAG_TEXT] + text_bytes(text@) =~= source@.subrange(
                    pos as int,
                    end as int,
                ));
                Ok((Target::Text(text), end))
            },
        }
    } else {
        Err(Error::InvariantViolation)
    }
}

/// The stored bytes of a fact: sayer, object, point and target, and after
/// them the ring.
pub open spec fn say_bytes(say: Say) -> Seq<u8> {
    sayer_bytes(say.sayer) + object_bytes(say.object) + point_bytes(say.point) + target_bytes(
        say.target->Some_0,
    ) + ring_bytes(say.ring)
}

/// A fact can be stored when it has a target and no text in it is too long.
pub open spec fn say_fits(say: Say) -> bool {
    &&& say.target is Some
    &&& name_fits(sayer_name(say.sayer))
    &&& name_fits(object_name(say.object))
    &&& name_fits(point_name(say.point))
    &&& target_fits(say.target->Some_0)
    &&& ring_fits(say.ring)
}

/// Where the parts of `say` lie when its stored bytes start at `start`. The
/// ring lies at `end`, after the target.
pub open spec fn say_layout(say: Say, start: nat, pos: SayPos) -> bool {
    &&& pos.sayer@ == start
    &&& pos.object@ == pos.sayer@ + sayer_bytes(say.sayer).len()
    &&& pos.point@ == pos.object@ + object_bytes(say.object).len()
    &&& pos.target@ == pos.point@ + point_bytes(say.point).len()
    &&& pos.end@ == pos.target@ + target_bytes(say.target->Some_0).len()
}

/// Whether the parts of a fact are stored in `d` where `pos` says.
pub open spec fn say_at(d: Seq<u8>, pos: SayPos) -> bool {
    &&& name_at(d, pos.sayer@ as int)
    &&& name_at(d, pos.object@ as int)
    &&& name_at(d, pos.point@ as int)
    &&& target_at(d, pos.target@ as int)
    &&& ring_at(d, pos.end@ as int)
}

/// Whether `say` is the fact whose parts are stored in `d` where `pos`
/// says.
pub open spec fn say_stored(d: Seq<u8>, pos: SayPos, say: Say) -> bool {
    &&& say.target is Some
    &&& sayer_bytes(say.sayer) == d.subrange(
        pos.sayer@ as int,
        name_end(d, pos.sayer@ as int),
    )
    &&& object_bytes(say.object) == d.subrange(
        pos.object@ as int,
        name_end(d, pos.object@ as int),
    )
    &&& point_bytes(say.point) == d.subrange(
        pos.point@ as int,
        name_end(d, pos.point@ as int),
    )
    &&& target_bytes(say.target->Some_0) == d.subrange(
        pos.target@ as int,
        target_end(d, pos.target@ as int),
    )
    &&& ring_bytes(say.ring) == d.subrange(pos.end@ as int, ring_end(d, pos.end@ as int))
}

/// A text that was stored can be read where it was stored, and ends where
/// its stored bytes end.
pub proof fn lemma_text_stored(d: Seq<u8>, pos: int, chars: Seq<char>)
    requires
        0 <= pos,
        text_fits(chars),
        pos + text_bytes(chars).len() <= d.len(),
        d.subrange(pos, pos + text_bytes(chars).len()) == text_bytes(chars),
    ensures
        text_at(d, pos),
        text_end(d, pos) == pos + text_bytes(chars).len(),
{
    let enc = encode_utf8(chars);
    let n = enc.len() as u32;
    let stored = text_bytes(chars);
    let part = d.subrange(pos, pos + stored.len());
    lemma_word_round_trip(n);
    assert(d[pos] == part[0] && d[pos + 1] == part[1] && d[pos + 2] == part[2] && d[pos + 3]
        == part[3]);
    assert(stored[0] == word_bytes(n)[0] && stored[1] == word_bytes(n)[1] && stored[2]
        == word_bytes(n)[2] && stored[3] == word_bytes(n)[3]);
    assert(text_len(d, pos) == n);
    assert(d.subrange(pos + 4, pos + 4 + n) =~= enc) by {
        assert forall|k: int| 0 <= k < n implies d[pos + 4 + k] == enc[k] by {
            assert(d[pos + 4 + k] == part[4 + k]);
            assert(stored[4 + k] == enc[k]);
        }
    }
    vstd::utf8::encode_utf8_valid_utf8(chars);
}

/// A unit or a name that was stored can be read where it was stored.
pub proof fn lemma_name_stored(d: Seq<u8>, pos: int, name: Option<Seq<char>>)
    requires
        0 <= pos,
        name_fits(name),
        pos + name_bytes(name).len() <= d.len(),
        d.subrange(pos, pos + name_bytes(name).len()) == name_bytes(name),
    ensures
        name_at(d, pos),
        name_end(d, pos) == pos + name_bytes(name).len(),
{
    let stored = name_bytes(name);
    let part = d.subrange(pos, pos + stored.len());
    assert(d[pos] == part[0]);
    match name {
        None => {},
        Some(chars) => {
            let text = text_bytes(chars);
            assert(d.subrange(pos + 1, pos + 1 + text.len()) =~= text) by {
                assert forall|k: int| 0 <= k < text.len() implies d[pos + 1 + k] == text[k] by {
                    assert(d[pos + 1 + k] == part[1 + k]);
                }
            }
            lemma_text_stored(d, pos + 1, chars);
        },
    }
}

/// A ring that was stored can be read where it was stored.
pub proof fn lemma_ring_stored(d: Seq<u8>, pos: int, ring: Ring)
    requires
        0 <= pos,
        ring_fits(ring),
        pos + ring_bytes(ring).len() <= d.len(),
        d.subrange(pos, pos + ring_bytes(ring).len()) == ring_bytes(ring),
    ensures
        ring_at(d, pos),
        ring_end(d, pos) == pos + ring_bytes(ring).len(),
{
    let stored = ring_bytes(ring);
    let part = d.subrange(pos, pos + stored.len());
    assert(d[pos] == part[0]);
    match ring {
        Ring::Unit => {},
        Ring::Static { name, aspect } => {
            let first = text_bytes(name@);
            let second = text_bytes(aspect@);
            assert(d.subrange(pos + 1, pos + 1 + first.len()) =~= first) by {
                assert forall|k: int| 0 <= k < first.len() implies d[pos + 1 + k] == first[k] by {
                    assert(d[pos + 1 + k] == part[1 + k]);
                }
            }
            lemma_text_stored(d, pos + 1, name@);
            let mid = pos + 1 + first.len();
            assert(d.subrange(mid, mid + second.len()) =~= second) by {
                assert forall|k: int| 0 <= k < second.len() implies d[mid + k] == second[k] by {
                    assert(d[mid + k] == part[1 + first.len() + k]);
                }
            }
            lemma_text_stored(d, mid, aspect@);
        },
    }
}

/// A target that was stored can be read where it was stored.
pub proof fn lemma_target_stored(d: Seq<u8>, pos: int, target: Target)
    requires
        0 <= pos,
        target_fits(target),
        pos + target_bytes(target).len() <= d.len(),
        d.subrange(pos, pos + target_bytes(target).len()) == target_bytes(target),
    ensures
        target_at(d, pos),
        target_end(d, pos) == pos + target_bytes(target).len(),
{
    let stored = target_bytes(target);
    let part = d.subrange(pos, pos + stored.len());
    assert(d[pos] == part[0]);
    match target {
        Target::Number(_) => {},
        Target::Text(s) => {
            let text = text_bytes(s@);
            assert(d.subrange(pos + 1, pos + 1 + text.len()) =~= text) by {
                assert forall|k: int| 0 <= k < text.len() implies d[pos + 1 + k] == text[k] by {
                    assert(d[pos + 1 + k] == part[1 + k]);
                }
            }
            lemma_text_stored(d, pos + 1, s@);
        },
    }
}

/// An object that was stored with a target after it can be read where it
/// was stored, and the target where the object ends.
pub proof fn lemma_pair_stored(d: Seq<u8>, pos: int, object: ObjectId, target: Target)
    requires
        0 <= pos,
        name_fits(object_name(object)),
        target_fits(target),
        pos + (object_bytes(object) + target_bytes(target)).len() <= d.len(),
        d.subrange(pos, pos + (object_bytes(object) + target_bytes(target)).len()) == object_bytes(
            object,
        ) + target_bytes(target),
    ensures
        name_at(d, pos),
        d.subrange(pos, name_end(d, pos)) == object_bytes(object),
        target_at(d, name_end(d, pos)),
        d.subrange(name_end(d, pos), target_end(d, name_end(d, pos))) == target_bytes(target),
{
    let first = object_bytes(object);
    let second = target_bytes(target);
    let pair = d.subrange(pos, pos + (first + second).len());
    assert(d.subrange(pos, pos + first.len()) =~= first) by {
        assert forall|k: int| 0 <= k < first.len() implies d[pos + k] == first[k] by {
            assert(d[pos + k] == pair[k]);
        }
    }
    lemma_name_stored(d, pos, object_name(object));
    let mid = pos + first.len();
    assert(d.subrange(mid, mid + second.len()) =~= second) by {
        assert forall|k: int| 0 <= k < second.len() implies d[mid + k] == second[k] by {
            assert(d[mid + k] == pair[first.len() + k]);
        }
    }
    lemma_target_stored(d, mid, target);
}

/// Texts with the same stored bytes are the same text.
pub proof fn lemma_text_bytes_injective(a: Seq<char>, b: Seq<char>)
    requires
        text_bytes(a) == text_bytes(b),
    ensures
        a == b,
{
    let ta = text_bytes(a);
    let tb = text_bytes(b);
    assert(encode_utf8(a) =~= ta.subrange(4, ta.len() as int));
    assert(encode_utf8(b) =~= tb.subrange(4, tb.len() as int));
    vstd::utf8::encode_utf8_decode_utf8(a);
    vstd::utf8::encode_utf8_decode_utf8(b);
}

/// Targets with the same stored bytes hold the same number or the same
/// text.
pub proof fn lemma_target_bytes_injective(a: Target, b: Target)
    requires
        target_bytes(a) == target_bytes(b),
    ensures
        a is Number <==> b is Number,
        a is Number ==> a->Number_0 == b->Number_0,
        a is Text ==> a->Text_0@ == b->Text_0@,
{
    let sa = target_bytes(a);
    let sb = target_bytes(b);
    assert(sa[0] == sb[0]);
    match (a, b) {
        (Target::Number(n), Target::Number(m)) => {
            let hn = (n >> 32u64) as u32;
            let ln = n as u32;
            let hm = (m >> 32u64) as u32;
            let lm = m as u32;
            lemma_word_round_trip(hn);
            lemma_word_round_trip(ln);
            lemma_word_round_trip(hm);
            lemma_word_round_trip(lm);
            assert(word_bytes(hn) =~= sa.subrange(1, 5));
            assert(word_bytes(hm) =~= sb.subrange(1, 5));
            assert(word_bytes(ln) =~= sa.subrange(5, 9));
            assert(word_bytes(lm) =~= sb.subrange(5, 9));
            assert(word_bytes(hn)[0] == word_bytes(hm)[0] && word_bytes(hn)[1] == word_bytes(
                hm,
            )[1] && word_bytes(hn)[2] == word_bytes(hm)[2] && word_bytes(hn)[3] == word_bytes(
                hm,
            )[3]);
            assert(word_bytes(ln)[0] == word_bytes(lm)[0] && word_bytes(ln)[1] == word_bytes(
                lm,
            )[1] && word_bytes(ln)[2] == word_bytes(lm)[2] && word_bytes(ln)[3] == word_bytes(
                lm,
            )[3]);
            assert(hn == hm && ln == lm);
            assert(n == m) by (bit_vector)
                requires
                    (n >> 32u64) as u32 == (m >> 32u64) as u32,
                    n as u32 == m as u32,
            ;
        },
        (Target::Text(s), Target::Text(t)) => {
            assert(text_bytes(s@) =~= sa.subrange(1, sa.len() as int));
            assert(text_bytes(t@) =~= sb.subrange(1, sb.len() as int));
            lemma_text_bytes_injective(s@, t@);
        },
        _ => {},
    }
}

/// A fact that was stored can be read where it was stored, and each part
/// that is read has the stored bytes of the part that was written. `d` is
/// the diary after the fact was appended to `before`.
pub proof fn lemma_say_round_trip(before: Seq<u8>, d: Seq<u8>, say: Say, pos: SayPos)
    requires
        say_fits(say),
        d == before + say_bytes(say),
        say_layout(say, before.len(), pos),
    ensures
        say_at(d, pos),
        forall|read: Say| #[trigger]
            say_stored(d, pos, read) ==> {
                &&& sayer_bytes(read.sayer) == sayer_bytes(say.sayer)
                &&& object_bytes(read.object) == object_bytes(say.object)
                &&& point_bytes(read.point) == point_bytes(say.point)
                &&& target_bytes(read.target->Some_0) == target_bytes(say.target->Some_0)
                &&& ring_bytes(read.ring) == ring_bytes(say.ring)
            },
{
    let sayer = sayer_bytes(say.sayer);
    let object = object_bytes(say.object);
    let point = point_bytes(say.point);
    let target = target_bytes(say.target->Some_0);
    let ring = ring_bytes(say.ring);
    let at_sayer = pos.sayer@ as int;
    let at_object = pos.object@ as int;
    let at_point = pos.point@ as int;
    let at_target = pos.target@ as int;
    let at_ring = pos.end@ as int;
    assert(d.subrange(at_sayer, at_sayer + sayer.len()) =~= sayer);
    assert(d.subrange(at_object, at_object + object.len()) =~= object);
    assert(d.subrange(at_point, at_point + point.len()) =~= point);
    assert(d.subrange(at_target, at_target + target.len()) =~= target);
    assert(d.subrange(at_ring, at_ring + ring.len()) =~= ring);
    lemma_name_stored(d, at_sayer, sayer_name(say.sayer));
    lemma_name_stored(d, at_object, object_name(say.object));
    lemma_name_stored(d, at_point, point_name(say.point));
    lemma_target_stored(d, at_target, say.target->Some_0);
    lemma_ring_stored(d, at_ring, say.ring);
}

/// The stored bytes of the parts of a fact, part by part.
pub struct SayParts {
    pub sayer: Vec<u8>,
    pub object: Vec<u8>,
    pub point: Vec<u8>,
    pub target: Vec<u8>,
    pub ring: Vec<u8>,
}

/// The stored bytes of each part of `say`, if the fact can be stored.
pub fn say_parts(say: &Say) -> (r: Result<SayParts, Error>)
    ensures
        r is Ok <==> say_fits(*say),
        r is Ok ==> {
            &&& r->Ok_0.sayer@ == sayer_bytes(say.sayer)
            &&& r->Ok_0.object@ == object_bytes(say.object)
            &&& r->Ok_0.point@ == point_bytes(say.point)
            &&& r->Ok_0.target@ == target_bytes(say.target->Some_0)
            &&& r->Ok_0.ring@ == ring_bytes(say.ring)
        },
        r is Err ==> r->Err_0 == Error::InvariantViolation,
{
    let value = match &say.target {
        None => {
            return Err(Error::InvariantViolation);
        },
        Some(value) => value,
    };
    let sayer = match sayer_payload(&say.sayer) {
        Ok(bytes) => bytes,
        Err(e) => {
            return Err(e);
        },
    };
    let object = match object_payload(&say.object) {
        Ok(bytes) => bytes,
        Err(e) => {
            return Err(e);
        },
    };
    let point = match point_payload(&say.point) {
        Ok(bytes) => bytes,
        Err(e) => {
            return Err(e);
        },
    };
    let target = match target_payload(value) {
        Ok(bytes) => bytes,
        Err(e) => {
            return Err(e);
        },
    };
    let ring = match ring_payload(&say.ring) {
        Ok(bytes) => bytes,
        Err(e) => {
            return Err(e);
        },
    };
    Ok(SayParts { sayer, object, point, target, ring })
}

impl Writer {
    /// Appends `bytes` as one stored value and returns where it starts. It
    /// fails, and appends nothing, when the start cannot be held in a slot.
    pub fn write_blob(&mut self, bytes: &[u8]) -> (r: Result<u32, Error>)
        ensures
            r is Ok <==> old(self)@.len() < TOP_BIT,
            r is Ok ==> r->Ok_0 == old(self)@.len() && final(self)@ == old(self)@ + bytes@,
            r is Err ==> r->Err_0 == Error::InvariantViolation && final(self)@ == old(self)@,
    {
        if self.end_size() >= TOP_BIT as usize {
            return Err(Error::InvariantViolation);
        }
        let pos = self.write(bytes);
        Ok(pos as u32)
    }

    /// Appends the parts of `say` and returns where each of them starts. It
    /// fails, and appends nothing, when the fact has no target, when a text
    /// in it is too long, or when its bytes would reach past what a slot can
    /// address.
    pub fn write_say(&mut self, say: &Say) -> (r: Result<SayPos, Error>)
        ensures
            r is Ok <==> say_fits(*say) && old(self)@.len() + say_bytes(*say).len() <= TOP_BIT,
            r is Ok ==> final(self)@ == old(self)@ + say_bytes(*say) && say_layout(
                *say,
                old(self)@.len(),
                r->Ok_0,
            ),
            r is Err ==> r->Err_0 == Error::InvariantViolation && final(self)@ == old(self)@,
    {
        let parts = match say_parts(say) {
            Ok(parts) => parts,
            Err(e) => {
                return Err(e);
            },
        };
        let start = self.end_size();
        let limit = TOP_BIT as usize;
        if start > limit || parts.sayer.len() > limit - start {
            return Err(Error::InvariantViolation);
        }
        let at_object = start + parts.sayer.len();
        if parts.object.len() > limit - at_object {
            return Err(Error::InvariantViolation);
        }
        let at_point = at_object + parts.object.len();
        if parts.point.len() > limit - at_point {
            return Err(Error::InvariantViolation);
        }
        let at_target = at_point + parts.point.len();
        if parts.target.len() > limit - at_target {
            return Err(Error::InvariantViolation);
        }
        let end = at_target + parts.target.len();
        if parts.ring.len() > limit - end {
            return Err(Error::InvariantViolation);
        }
        self.write(parts.sayer.as_slice());
        self.write(parts.object.as_slice());
        self.write(parts.point.as_slice());
        self.write(parts.target.as_slice());
        self.write(parts.ring.as_slice());
        assert(self@ =~= old(self)@ + say_bytes(*say));
        Ok(
            SayPos {
                sayer: Pos::at(start),
                object: Pos::at(at_object),
                point: Pos::at(at_point),
                target: Pos::at(at_target),
                end: Pos::at(end),
            },
        )
    }
}

impl Reader {
    /// Reads the fact whose parts are stored where `pos` says.
    pub fn read_say(&self, pos: SayPos) -> (r: Result<Say, Error>)
        ensures
            r is Ok <==> say_at(self@, pos),
            r is Ok ==> say_stored(self@, pos, r->Ok_0),
            r is Err ==> r->Err_0 == Error::InvariantViolation,
    {
        let source = self.as_slice();
        let (sayer, _) = read_sayer(source, pos.sayer.start())?;
        let (object, _) = read_object(source, pos.object.start())?;
        let (point, _) = read_point(source, pos.point.start())?;
        let (target, _) = read_target(source, pos.target.start())?;
        let (ring, _) = read_ring(source, pos.end.start())?;
        Ok(Say { sayer, object, ring, point, target: Some(target) })
    }
}

} // verus!
