//! The roots log: the pair of roots of every commit, one pair after the
//! other. The last pair is the current version.
//!
//! A crash can leave a torn pair at the end, or a pair whose frames never
//! reached the diary. Opening the log cuts it back to the longest run of
//! whole pairs whose last pair the diary covers.

use vstd::prelude::*;
use crate::bits::{count_bits_below, popcount, TOP_BIT};
use crate::error::Error;
use crate::hamt::{lemma_root_round_trip, root_at, root_bytes, root_of, Root, ROOT_LEN};
use crate::slot::SLOT_LEN;
use crate::slot_index::SLOT_COUNT;

verus! {

/// Bytes that one pair of roots takes.
pub const PAIR_LEN: usize = 16;

/// The log of root pairs, with the pair that is current.
pub struct RootsLog {
    bytes: Vec<u8>,
    roots: (Root, Root),
}

impl View for RootsLog {
    type V = Seq<u8>;

    closed spec fn view(&self) -> Seq<u8> {
        self.bytes@
    }
}

/// Whether the frame that `root` refers to ends within the first
/// `diary_len` bytes of the diary.
pub open spec fn covered(root: Root, diary_len: nat) -> bool {
    root.pos + SLOT_LEN * popcount(root.mask) <= diary_len
}

/// The pair with number `k` in `log`.
pub open spec fn pair_of(log: Seq<u8>, k: int) -> (Root, Root) {
    (root_of(log, PAIR_LEN * k), root_of(log, PAIR_LEN * k + ROOT_LEN))
}

/// Whether the pair with number `k` lies whole in `log`, holds two roots,
/// and refers to nothing past the first `diary_len` bytes of the diary.
pub open spec fn pair_ok(log: Seq<u8>, k: int, diary_len: nat) -> bool {
    &&& 0 <= k
    &&& PAIR_LEN * k + PAIR_LEN <= log.len()
    &&& root_at(log, PAIR_LEN * k)
    &&& root_at(log, PAIR_LEN * k + ROOT_LEN)
    &&& covered(pair_of(log, k).0, diary_len)
    &&& covered(pair_of(log, k).1, diary_len)
}

/// The number of pairs in the longest run of at most `upto` pairs from the
/// start of `log` whose last pair is sound.
pub open spec fn good_pairs(log: Seq<u8>, diary_len: nat, upto: nat) -> nat
    decreases upto,
{
    if upto == 0 {
        0
    } else if pair_ok(log, upto - 1, diary_len) {
        upto
    } else {
        good_pairs(log, diary_len, (upto - 1) as nat)
    }
}

/// The length to which `log` is cut when it is opened beside a diary of
/// `diary_len` bytes.
pub open spec fn good_len(log: Seq<u8>, diary_len: nat) -> nat {
    PAIR_LEN as nat * good_pairs(log, diary_len, log.len() / PAIR_LEN as nat)
}

/// The pair of the empty tries.
pub open spec fn zero_pair() -> (Root, Root) {
    (Root { pos: 0, mask: 0 }, Root { pos: 0, mask: 0 })
}

/// The roots that are current when `log` is opened beside a diary of
/// `diary_len` bytes.
pub open spec fn tail_roots(log: Seq<u8>, diary_len: nat) -> (Root, Root) {
    let g = good_pairs(log, diary_len, log.len() / PAIR_LEN as nat);
    if g == 0 {
        zero_pair()
    } else {
        pair_of(log, g - 1)
    }
}

/// The last pair of a log of whole pairs, or the pair of the empty tries.
pub open spec fn last_pair(log: Seq<u8>) -> (Root, Root) {
    if log.len() < PAIR_LEN {
        zero_pair()
    } else {
        pair_of(log, log.len() / PAIR_LEN as nat - 1)
    }
}

pub proof fn lemma_good_pairs_bound(log: Seq<u8>, diary_len: nat, upto: nat)
    ensures
        good_pairs(log, diary_len, upto) <= upto,
        good_pairs(log, diary_len, upto) > 0 ==> pair_ok(
            log,
            good_pairs(log, diary_len, upto) - 1,
            diary_len,
        ),
    decreases upto,
{
    if upto > 0 && !pair_ok(log, upto - 1, diary_len) {
        lemma_good_pairs_bound(log, diary_len, (upto - 1) as nat);
    }
}

/// Whether a pair is sound depends on its own sixteen bytes, and a longer
/// diary covers what a shorter one covers.
pub proof fn lemma_pair_ok_same_bytes(a: Seq<u8>, b: Seq<u8>, k: int, n: nat, m: nat)
    requires
        0 <= k,
        PAIR_LEN * k + PAIR_LEN <= a.len(),
        PAIR_LEN * k + PAIR_LEN <= b.len(),
        a.subrange(PAIR_LEN * k, PAIR_LEN * k + PAIR_LEN) == b.subrange(
            PAIR_LEN * k,
            PAIR_LEN * k + PAIR_LEN,
        ),
    ensures
        pair_of(a, k) == pair_of(b, k),
        n == m ==> pair_ok(a, k, n) == pair_ok(b, k, m),
        n <= m && pair_ok(a, k, n) ==> pair_ok(b, k, m),
{
    let lo = PAIR_LEN * k;
    let pa = a.subrange(lo, lo + PAIR_LEN);
    let pb = b.subrange(lo, lo + PAIR_LEN);
    assert(a.subrange(lo, lo + ROOT_LEN) =~= pa.subrange(0, ROOT_LEN as int));
    assert(b.subrange(lo, lo + ROOT_LEN) =~= pb.subrange(0, ROOT_LEN as int));
    assert(a.subrange(lo + ROOT_LEN, lo + ROOT_LEN + ROOT_LEN) =~= pa.subrange(
        ROOT_LEN as int,
        PAIR_LEN as int,
    ));
    assert(b.subrange(lo + ROOT_LEN, lo + ROOT_LEN + ROOT_LEN) =~= pb.subrange(
        ROOT_LEN as int,
        PAIR_LEN as int,
    ));
}

/// Opening a log that was cut by an earlier opening cuts nothing more and
/// finds the same roots.
pub proof fn lemma_recover_idempotent(log: Seq<u8>, diary_len: nat)
    ensures
        good_len(log, diary_len) <= log.len(),
        good_len(log.subrange(0, good_len(log, diary_len) as int), diary_len) == good_len(
            log,
            diary_len,
        ),
        tail_roots(log.subrange(0, good_len(log, diary_len) as int), diary_len) == tail_roots(
            log,
            diary_len,
        ),
{
    let whole = log.len() / PAIR_LEN as nat;
    let g = good_pairs(log, diary_len, whole);
    lemma_good_pairs_bound(log, diary_len, whole);
    let cut = log.subrange(0, (PAIR_LEN * g) as int);
    assert(cut.len() / PAIR_LEN as nat == g);
    if g > 0 {
        assert(cut.subrange(PAIR_LEN * (g - 1), PAIR_LEN * (g - 1) + PAIR_LEN) =~= log.subrange(
            PAIR_LEN * (g - 1),
            PAIR_LEN * (g - 1) + PAIR_LEN,
        ));
        lemma_pair_ok_same_bytes(log, cut, g - 1, diary_len, diary_len);
    }
}

/// After a crash the roots are those of the last commit. `log` is the roots
/// log as the last commit left it, `torn` what a broken append left behind
/// it, less than a pair; the diary had `diary_len` bytes at that commit and
/// may have grown to `later_len` since. Opening cuts `torn` off and finds
/// the last pair of `log`.
pub proof fn lemma_recover_after_crash(
    log: Seq<u8>,
    torn: Seq<u8>,
    diary_len: nat,
    later_len: nat,
)
    requires
        log.len() % PAIR_LEN as nat == 0,
        log.len() > 0 ==> pair_ok(log, log.len() / PAIR_LEN as nat - 1, diary_len),
        torn.len() < PAIR_LEN,
        diary_len <= later_len,
    ensures
        good_len(log + torn, later_len) == log.len(),
        tail_roots(log + torn, later_len) == last_pair(log),
        (log + torn).subrange(0, good_len(log + torn, later_len) as int) == log,
{
    let all = log + torn;
    let whole = log.len() / PAIR_LEN as nat;
    assert(all.len() / PAIR_LEN as nat == whole);
    if whole > 0 {
        let k = whole - 1;
        assert(all.subrange(PAIR_LEN * k, PAIR_LEN * k + PAIR_LEN) =~= log.subrange(
            PAIR_LEN * k,
            PAIR_LEN * k + PAIR_LEN,
        ));
        lemma_pair_ok_same_bytes(log, all, k, diary_len, later_len);
    }
    assert(all.subrange(0, log.len() as int) =~= log);
}

/// Whether the frame that `root` refers to ends within `diary_len` bytes.
pub fn is_covered(root: Root, diary_len: usize) -> (b: bool)
    ensures
        b == covered(root, diary_len as nat),
{
    let count = count_bits_below(root.mask, SLOT_COUNT);
    let end: u64 = root.pos as u64 + (SLOT_LEN * count) as u64;
    end <= diary_len as u64
}

impl RootsLog {
    /// The pair of roots that is current.
    pub closed spec fn current(&self) -> (Root, Root) {
        self.roots
    }

    /// The log holds whole pairs, and the current roots are its last pair.
    pub open spec fn wf(&self) -> bool {
        &&& self@.len() % PAIR_LEN as nat == 0
        &&& self.current() == last_pair(self@)
        &&& self.current().0.pos < TOP_BIT
        &&& self.current().1.pos < TOP_BIT
        &&& self@.len() > 0 ==> root_at(self@, self@.len() - PAIR_LEN) && root_at(
            self@,
            self@.len() - ROOT_LEN,
        )
    }

    /// The pair of roots that is current.
    pub fn roots(&self) -> (r: (Root, Root))
        ensures
            r == self.current(),
    {
        self.roots
    }

    /// Opens the log that a file with `contents` holds, beside a diary of
    /// `diary_len` bytes. The log is cut back to its longest run of whole
    /// pairs whose last pair holds two roots that the diary covers; that
    /// pair is current. Where no pair is left the tries are empty.
    pub fn new(contents: Vec<u8>, diary_len: usize) -> (log: RootsLog)
        ensures
            log@ == contents@.subrange(0, good_len(contents@, diary_len as nat) as int),
            log.current() == tail_roots(contents@, diary_len as nat),
            log.wf(),
    {
        let mut bytes = contents;
        let whole: usize = bytes.len() / PAIR_LEN;
        let mut k: usize = whole;
        let mut found = false;
        let mut roots = (Root::zero(), Root::zero());
        while k > 0 && !found
            invariant
                k <= whole,
                whole == bytes@.len() / PAIR_LEN as nat,
                bytes@.len() <= usize::MAX,
                bytes@ == contents@,
                good_pairs(bytes@, diary_len as nat, whole as nat) == good_pairs(
                    bytes@,
                    diary_len as nat,
                    k as nat,
                ),
                found ==> k > 0 && pair_ok(bytes@, k - 1, diary_len as nat) && roots == pair_of(
                    bytes@,
                    k - 1,
                ) && roots.0.pos < TOP_BIT && roots.1.pos < TOP_BIT,
                !found ==> roots == zero_pair(),
            decreases
                    (if found {
                        0int
                    } else {
                        k as int
                    }),
        {
            assert(PAIR_LEN * k <= bytes@.len());
            let at = PAIR_LEN * (k - 1);
            let first = Root::read(bytes.as_slice(), at);
            let second = Root::read(bytes.as_slice(), at + ROOT_LEN);
            let mut sound = false;
            match (first, second) {
                (Ok(a), Ok(b)) => {
                    if is_covered(a, diary_len) && is_covered(b, diary_len) {
                        roots = (a, b);
                        sound = true;
                    }
                },
                _ => {},
            }
            if sound {
                found = true;
            } else {
                k = k - 1;
            }
        }
        assert(good_pairs(contents@, diary_len as nat, whole as nat) == k);
        bytes.truncate(PAIR_LEN * k);
        proof {
            let cut = bytes@;
            assert(cut.len() == PAIR_LEN * k);
            assert(cut.len() / PAIR_LEN as nat == k);
            if k > 0 {
                assert(cut.subrange(PAIR_LEN * (k - 1), PAIR_LEN * (k - 1) + PAIR_LEN)
                    =~= contents@.subrange(PAIR_LEN * (k - 1), PAIR_LEN * (k - 1) + PAIR_LEN));
                lemma_pair_ok_same_bytes(
                    contents@,
                    cut,
                    k - 1,
                    diary_len as nat,
                    diary_len as nat,
                );
            }
        }
        RootsLog { bytes, roots }
    }

    /// The log with no pair: both tries are empty.
    pub fn empty() -> (log: RootsLog)
        ensures
            log@ == Seq::<u8>::empty(),
            log.current() == zero_pair(),
            log.wf(),
    {
        RootsLog { bytes: Vec::new(), roots: (Root::zero(), Root::zero()) }
    }

    /// Length of the log in bytes.
    pub fn len(&self) -> (n: usize)
        ensures
            n == self@.len(),
    {
        self.bytes.len()
    }

    /// The bytes of the log from offset `from` on.
    pub fn written_since(&self, from: usize) -> (tail: Vec<u8>)
        ensures
            from <= self@.len() ==> tail@ == self@.subrange(from as int, self@.len() as int),
            from > self@.len() ==> tail@ == Seq::<u8>::empty(),
    {
        let mut tail: Vec<u8> = Vec::new();
        if from > self.bytes.len() {
            return tail;
        }
        let mut i: usize = from;
        while i < self.bytes.len()
            invariant
                from <= i <= self.bytes@.len(),
                tail@ == self.bytes@.subrange(from as int, i as int),
            decreases self.bytes@.len() - i,
        {
            tail.push(self.bytes[i]);
            i = i + 1;
        }
        tail
    }

    /// Appends the pair `(a, b)` and makes it current. It fails, and leaves
    /// the log as it was, when one of the roots cannot be stored.
    pub fn write_roots(&mut self, a: Root, b: Root) -> (r: Result<(), Error>)
        ensures
            r is Ok <==> a.pos < TOP_BIT && b.pos < TOP_BIT,
            r is Ok ==> final(self)@ == old(self)@ + root_bytes(a) + root_bytes(b),
            r is Ok ==> final(self).current() == (a, b),
            r is Ok && old(self).wf() ==> final(self).wf(),
            r is Err ==> r->Err_0 == Error::InvariantViolation && *final(self) == *old(self),
    {
        let first = match a.to_bytes() {
            Ok(bytes) => bytes,
            Err(e) => {
                return Err(e);
            },
        };
        let second = match b.to_bytes() {
            Ok(bytes) => bytes,
            Err(e) => {
                return Err(e);
            },
        };
        let mut i: usize = 0;
        while i < ROOT_LEN
            invariant
                i <= ROOT_LEN,
                first@.len() == ROOT_LEN,
                self.bytes@ == old(self).bytes@ + first@.subrange(0, i as int),
            decreases ROOT_LEN - i,
        {
            self.bytes.push(first[i]);
            assert(self.bytes@ =~= old(self).bytes@ + first@.subrange(0, i + 1));
            i = i + 1;
        }
        assert(first@.subrange(0, ROOT_LEN as int) =~= first@);
        let ghost mid = self.bytes@;
        let mut j: usize = 0;
        while j < ROOT_LEN
            invariant
                j <= ROOT_LEN,
                second@.len() == ROOT_LEN,
                self.bytes@ == mid + second@.subrange(0, j as int),
            decreases ROOT_LEN - j,
        {
            self.bytes.push(second[j]);
            assert(self.bytes@ =~= mid + second@.subrange(0, j + 1));
            j = j + 1;
        }
        assert(second@.subrange(0, ROOT_LEN as int) =~= second@);
        self.roots = (a, b);
        proof {
            let log = self.bytes@;
            let lo = old(self).bytes@.len() as int;
            assert(log.subrange(lo, lo + ROOT_LEN) =~= root_bytes(a));
            assert(log.subrange(lo + ROOT_LEN, lo + ROOT_LEN + ROOT_LEN) =~= root_bytes(b));
            lemma_root_round_trip(log, lo, a);
            lemma_root_round_trip(log, lo + ROOT_LEN, b);
        }
        Ok(())
    }
}

} // verus!
