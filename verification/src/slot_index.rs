//! Index of a slot inside a trie frame, and its one-bit mask.

use vstd::prelude::*;
use crate::bits::{bit_of, mask_of_index};

verus! {

/// Number of slots in a frame.
pub const SLOT_COUNT: usize = 32;

#[derive(Debug, Copy, Clone, PartialEq, Eq, Structural)]
pub struct SlotIndex {
    pub n: usize,
}

impl SlotIndex {
    /// An index is valid when it names one of the 32 slots.
    pub open spec fn wf(&self) -> bool {
        self.n < SLOT_COUNT
    }

    /// The index of slot `n`.
    pub fn at(n: usize) -> (r: Self)
        requires
            n < SLOT_COUNT,
        ensures
            r.n == n,
            r.wf(),
    {
        SlotIndex { n }
    }

    /// The mask in which only this slot's bit is set.
    pub fn as_mask(&self) -> (m: u32)
        requires
            self.wf(),
        ensures
            m == bit_of(self.n as u32),
    {
        mask_of_index(self.n)
    }
}

} // verus!
