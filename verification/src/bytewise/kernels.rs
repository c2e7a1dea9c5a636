//! The tests that a byte can be put to.

use crate::bitset::ByteSet;
use crate::bytewise::Kernel;
use vstd::prelude::*;

verus! {

/// Probes a 256-bit membership table, one byte per probe.
///
/// The counterpart of the vector table lookup for a target with no shuffle to run it on.
#[derive(Copy, Clone)]
pub struct AnyByte {
    bitset: ByteSet,
}

impl View for AnyByte {
    type V = Set<u8>;

    closed spec fn view(&self) -> Set<u8> {
        self.bitset@
    }
}

impl AnyByte {
    /// Builds a kernel that accepts the members of `bitset`.
    pub fn new(bitset: ByteSet) -> (kernel: AnyByte)
        ensures
            kernel@ == bitset@,
    {
        AnyByte { bitset }
    }
}

impl Kernel for AnyByte {
    fn matches(&self, byte: u8) -> (found: bool) {
        self.bitset.contains(byte)
    }
}

} // verus!
