//! The tests that a vector can be put to.

use crate::bits;
use crate::bitset::{ByteRange, ByteSet};
use crate::nibbles;
use crate::nibbles::{FixedNibble, FixedNibbleTable, NibbleLookup};
use crate::search;
use crate::search::BitsetLookup;
use crate::vector::lanes;
use crate::vector::lanes::Lanes;
use crate::vector::Kernel;
use fearless_simd::Level;
use vstd::prelude::*;

verus! {

/// Compares each byte with up to three needles.
#[derive(Copy, Clone)]
pub struct AnyOf<const N: usize> {
    splatted_needles: [[u8; 16]; N],
}

impl<const N: usize> View for AnyOf<N> {
    type V = Set<u8>;

    closed spec fn view(&self) -> Set<u8> {
        Set::new(
            |byte: u8| exists|j: int| 0 <= j < N && (#[trigger] self.splatted_needles@[j])@[0] == byte,
        )
    }
}

impl<const N: usize> AnyOf<N> {
    /// Every needle fills its block.
    #[verifier::type_invariant]
    spec fn splatted(self) -> bool {
        forall|j: int, k: int|
            0 <= j < N && 0 <= k < 16 ==> #[trigger] self.splatted_needles@[j]@[k]
                == self.splatted_needles@[j]@[0]
    }

    /// Builds a kernel that accepts exactly the `needles`.
    pub fn new(needles: [u8; N]) -> (kernel: AnyOf<N>)
        ensures
            kernel@ == needles@.to_set(),
    {
        let mut splatted_needles: [[u8; 16]; N] = [[0; 16]; N];
        let mut i: usize = 0;
        while i < N
            invariant
                i <= N,
                forall|j: int, k: int|
                    0 <= j < i && 0 <= k < 16 ==> #[trigger] splatted_needles@[j]@[k] == needles@[j],
            decreases N - i,
        {
            splatted_needles[i] = [needles[i]; 16];
            i += 1;
        }
        let kernel = AnyOf { splatted_needles };
        proof {
            assert forall|byte: u8| kernel@.contains(byte) == needles@.to_set().contains(byte) by {
                if needles@.contains(byte) {
                    let j = needles@.index_of(byte);
                    assert(splatted_needles@[j]@[0] == needles@[j]);
                }
                if kernel@.contains(byte) {
                    let j = choose|j: int|
                        0 <= j < N && (#[trigger] splatted_needles@[j])@[0] == byte;
                    assert(splatted_needles@[j]@[0] == needles@[j]);
                }
            }
            assert(kernel@ =~= needles@.to_set());
        }
        kernel
    }
}

impl<const N: usize> Kernel for AnyOf<N> {
    fn matches<V: Lanes>(&self, level: Level, chunk: &V) -> (mask: u64) {
        let mut matched: u64 = 0;
        proof {
            use_type_invariant(self);
            chunk.lemma_width();
            bits::lemma_bit_constants();
        }
        let mut i: usize = 0;
        while i < N
            invariant
                i <= N,
                chunk@.len() == V::width(),
                self.splatted(),
                forall|k: int| #[trigger]
                    bits::bit(matched, k) == (0 <= k < V::width() && exists|j: int|
                        0 <= j < i && (#[trigger] self.splatted_needles@[j])@[0] == chunk@[k]),
            decreases N - i,
        {
            let needle = V::block_splat(&self.splatted_needles[i]);
            let equal: u64 = chunk.lanes_eq(level, &needle);
            let ghost before = matched;
            matched = matched | equal;
            proof {
                bits::lemma_bit_ops(before, equal);
                assert forall|k: int| #[trigger] bits::bit(matched, k) == (0 <= k < V::width()
                    && exists|j: int|
                    0 <= j < i + 1 && (#[trigger] self.splatted_needles@[j])@[0] == chunk@[k]) by {
                    assert(bits::bit(before, k) == (0 <= k < V::width() && exists|j: int|
                        0 <= j < i && (#[trigger] self.splatted_needles@[j])@[0] == chunk@[k]));
                    if 0 <= k < V::width() {
                        assert(needle@[k] == self.splatted_needles@[i as int]@[k % 16]);
                        assert(self.splatted_needles@[i as int]@[k % 16]
                            == self.splatted_needles@[i as int]@[0]);
                    }
                }
            }
            i += 1;
        }
        matched
    }

    fn matches_byte(&self, byte: u8) -> (found: bool) {
        let mut i: usize = 0;
        while i < N
            invariant
                i <= N,
                forall|j: int| 0 <= j < i ==> (#[trigger] self.splatted_needles@[j])@[0] != byte,
            decreases N - i,
        {
            if self.splatted_needles[i][0] == byte {
                return true;
            }
            i += 1;
        }
        false
    }
}

/// Accepts every byte but one.
#[derive(Copy, Clone)]
pub struct NotByte {
    splatted_byte: [u8; 16],
}

impl View for NotByte {
    type V = Set<u8>;

    closed spec fn view(&self) -> Set<u8> {
        Set::new(|byte: u8| byte != self.splatted_byte@[0])
    }
}

impl NotByte {
    /// The excluded byte fills its block.
    #[verifier::type_invariant]
    spec fn splatted(self) -> bool {
        forall|k: int|
            0 <= k < 16 ==> #[trigger] self.splatted_byte@[k] == self.splatted_byte@[0]
    }

    /// Builds a kernel that accepts every byte except `byte`.
    pub fn new(byte: u8) -> (kernel: NotByte)
        ensures
            kernel@ == set![byte].complement(),
    {
        let kernel = NotByte { splatted_byte: [byte; 16] };
        assert(kernel@ =~= set![byte].complement());
        kernel
    }
}

impl Kernel for NotByte {
    fn matches<V: Lanes>(&self, level: Level, chunk: &V) -> (mask: u64) {
        let excluded = V::block_splat(&self.splatted_byte);
        let equal: u64 = chunk.lanes_eq(level, &excluded);
        let mask: u64 = V::other_lanes(equal);
        proof {
            use_type_invariant(self);
            chunk.lemma_width();
            assert forall|k: int| #[trigger] bits::bit(mask, k) == (0 <= k < V::width()
                && self@.contains(chunk@[0 + k])) by {
                if 0 <= k < V::width() {
                    assert(bits::bit(equal, k) == (chunk@[k] == excluded@[k]));
                    assert(excluded@[k] == self.splatted_byte@[k % 16]);
                }
            }
        }
        mask
    }

    fn matches_byte(&self, byte: u8) -> (found: bool) {
        byte != self.splatted_byte[0]
    }
}

/// Accepts the bytes of a range.
#[derive(Copy, Clone)]
pub struct OneRange {
    splatted_start: [u8; 16],
    splatted_last: [u8; 16],
}

impl View for OneRange {
    type V = Set<u8>;

    closed spec fn view(&self) -> Set<u8> {
        Set::new(|byte: u8| self.splatted_start@[0] <= byte <= self.splatted_last@[0])
    }
}

impl OneRange {
    /// Both ends fill their blocks.
    #[verifier::type_invariant]
    spec fn splatted(self) -> bool {
        &&& forall|k: int|
            0 <= k < 16 ==> #[trigger] self.splatted_start@[k] == self.splatted_start@[0]
        &&& forall|k: int|
            0 <= k < 16 ==> #[trigger] self.splatted_last@[k] == self.splatted_last@[0]
    }

    /// Builds a kernel that accepts the bytes of `range`.
    pub fn new(range: ByteRange) -> (kernel: OneRange)
        ensures
            kernel@ == range@,
    {
        let ByteRange { start, last } = range;
        let kernel = OneRange { splatted_start: [start; 16], splatted_last: [last; 16] };
        assert(kernel@ =~= range@);
        kernel
    }
}

impl Kernel for OneRange {
    fn matches<V: Lanes>(&self, level: Level, chunk: &V) -> (mask: u64) {
        let start = V::block_splat(&self.splatted_start);
        let last = V::block_splat(&self.splatted_last);
        let from_start: u64 = chunk.lanes_ge(level, &start);
        let up_to_last: u64 = chunk.lanes_le(level, &last);
        proof {
            use_type_invariant(self);
            chunk.lemma_width();
            bits::lemma_bit_ops(from_start, up_to_last);
            assert forall|k: int| #[trigger] bits::bit(from_start & up_to_last, k) == (0 <= k
                < V::width() && self@.contains(chunk@[0 + k])) by {
                if 0 <= k < V::width() {
                    assert(bits::bit(from_start, k) == (chunk@[k] >= start@[k]));
                    assert(bits::bit(up_to_last, k) == (chunk@[k] <= last@[k]));
                    assert(start@[k] == self.splatted_start@[k % 16]);
                    assert(last@[k] == self.splatted_last@[k % 16]);
                }
            }
        }
        from_start & up_to_last
    }

    fn matches_byte(&self, byte: u8) -> (found: bool) {
        let (start, last) = (self.splatted_start[0], self.splatted_last[0]);
        start <= byte && byte <= last
    }
}

/// Accepts the bytes whose nibbles share one of eight groups.
#[derive(Copy, Clone)]
pub struct SmallSet {
    lo_lookup: NibbleLookup,
    hi_lookup: NibbleLookup,
}

impl View for SmallSet {
    type V = Set<u8>;

    closed spec fn view(&self) -> Set<u8> {
        nibbles::grouped(self.lo_lookup, self.hi_lookup)
    }
}

impl SmallSet {
    /// Builds a kernel that accepts the bytes whose nibbles share a group.
    pub fn new(lo_lookup: NibbleLookup, hi_lookup: NibbleLookup) -> (kernel: SmallSet)
        ensures
            kernel@ == nibbles::grouped(lo_lookup, hi_lookup),
    {
        SmallSet { lo_lookup, hi_lookup }
    }
}

/// Tells which lanes of `chunk` are not zero.
fn nonzero_lanes<V: Lanes>(level: Level, chunk: &V) -> (mask: u64)
    ensures
        lanes::is_mask(mask, V::width(), |k: int| chunk@[k] != 0),
{
    let zeros: u64 = chunk.lanes_eq(level, &V::block_splat(&[0; 16]));
    V::other_lanes(zeros)
}

impl Kernel for SmallSet {
    fn matches<V: Lanes>(&self, level: Level, chunk: &V) -> (mask: u64) {
        let lo_lookup = V::block_splat(&self.lo_lookup.0);
        let hi_lookup = V::block_splat(&self.hi_lookup.0);
        let (lo_indices, hi_indices) = (chunk.keep_bits(0x0F), chunk.shift_down(4));
        proof {
            chunk.lemma_width();
            assert forall|k: int| 0 <= k < V::width() implies #[trigger] lo_indices@[k]
                == nibbles::low_nibble(chunk@[k]) by {
                nibbles::lemma_nibbles(chunk@[k]);
            }
            assert forall|k: int| 0 <= k < V::width() implies #[trigger] hi_indices@[k]
                == nibbles::high_nibble(chunk@[k]) by {
                nibbles::lemma_nibbles(chunk@[k]);
            }
        }
        let lo = lo_lookup.swizzle_within_blocks(level, &lo_indices);
        let hi = hi_lookup.swizzle_within_blocks(level, &hi_indices);
        let common = lo.common_bits(&hi);
        proof {
            assert forall|k: int| 0 <= k < V::width() implies (#[trigger] common@[k] != 0)
                == self@.contains(chunk@[k]) by {
                assert(lo@[k] == lo_lookup@[k - k % 16 + lo_indices@[k]]);
                assert(hi@[k] == hi_lookup@[k - k % 16 + hi_indices@[k]]);
                assert((k - k % 16 + lo_indices@[k]) % 16 == lo_indices@[k]);
                assert((k - k % 16 + hi_indices@[k]) % 16 == hi_indices@[k]);
            }
        }
        nonzero_lanes(level, &common)
    }

    fn matches_byte(&self, byte: u8) -> (found: bool) {
        // Each bit represents a group containing every combination of its high and
        // low nibbles, so a shared bit proves this byte belongs to the set.
        proof {
            nibbles::lemma_nibbles(byte);
        }
        let lo: u8 = self.lo_lookup.0[(byte & 0x0F) as usize];
        let hi: u8 = self.hi_lookup.0[(byte >> 4) as usize];
        lo & hi != 0
    }
}

/// Accepts the bytes that stand in the slots of their own nibbles.
#[derive(Copy, Clone)]
pub struct FixedNibbleSet {
    fixed_nibble: FixedNibble,
    table: [u8; 16],
}

impl View for FixedNibbleSet {
    type V = Set<u8>;

    closed spec fn view(&self) -> Set<u8> {
        (FixedNibbleTable { fixed_nibble: self.fixed_nibble, table: self.table })@
    }
}

impl FixedNibbleSet {
    /// Builds a kernel that accepts the members of `table`.
    pub fn new(table: FixedNibbleTable) -> (kernel: FixedNibbleSet)
        ensures
            kernel@ == table@,
    {
        let FixedNibbleTable { fixed_nibble, table } = table;
        FixedNibbleSet { fixed_nibble, table }
    }
}

impl Kernel for FixedNibbleSet {
    fn matches<V: Lanes>(&self, level: Level, chunk: &V) -> (mask: u64) {
        let table = V::block_splat(&self.table);
        let variable_nibbles = match self.fixed_nibble {
            FixedNibble::Low => chunk.shift_down(4),
            FixedNibble::High => chunk.keep_bits(0x0F),
        };
        proof {
            chunk.lemma_width();
            assert forall|k: int| 0 <= k < V::width() implies #[trigger] variable_nibbles@[k]
                == nibbles::slot(self.fixed_nibble, chunk@[k]) by {
                nibbles::lemma_nibbles(chunk@[k]);
            }
        }
        let should_match = table.swizzle_within_blocks(level, &variable_nibbles);
        proof {
            assert forall|k: int| 0 <= k < V::width() implies (chunk@[k]
                == #[trigger] should_match@[k]) == self@.contains(chunk@[k]) by {
                assert(should_match@[k] == table@[k - k % 16 + variable_nibbles@[k]]);
                assert((k - k % 16 + variable_nibbles@[k]) % 16 == variable_nibbles@[k]);
            }
        }
        chunk.lanes_eq(level, &should_match)
    }

    fn matches_byte(&self, byte: u8) -> (found: bool) {
        // Empty slots contain a sentinel whose variable nibble differs from its index.
        proof {
            nibbles::lemma_nibbles(byte);
        }
        let variable_nibble: u8 = match self.fixed_nibble {
            FixedNibble::Low => byte >> 4,
            FixedNibble::High => byte & 0x0F,
        };
        self.table[variable_nibble as usize] == byte
    }
}

/// A block whose byte `k` has only bit `k % 8` set.
fn single_bits() -> (block: [u8; 16])
    ensures
        forall|k: int| 0 <= k < 16 ==> #[trigger] block@[k] == 1u8 << ((k % 8) as u8),
{
    let mut block: [u8; 16] = [0; 16];
    let mut k: usize = 0;
    while k < 16
        invariant
            k <= 16,
            forall|j: int| 0 <= j < k ==> #[trigger] block@[j] == 1u8 << ((j % 8) as u8),
        decreases 16 - k,
    {
        block[k] = 1u8 << ((k % 8) as u8);
        k += 1;
    }
    block
}

proof fn lemma_table_index(byte: u8)
    by (bit_vector)
    ensures
        byte & 0b0111 == byte % 8,
        byte >> 3u8 == byte / 8,
{
}

impl Kernel for BitsetLookup {
    fn matches<V: Lanes>(&self, level: Level, chunk: &V) -> (mask: u64) {
        let singles = V::block_splat(&single_bits());
        let bit_indices = chunk.keep_bits(0b0111);
        proof {
            chunk.lemma_width();
            assert forall|k: int| 0 <= k < V::width() implies #[trigger] bit_indices@[k]
                == chunk@[k] as int % 8 by {
                lemma_table_index(chunk@[k]);
            }
        }
        let bit = singles.swizzle_within_blocks(level, &bit_indices);
        let entry_indices = chunk.shift_down(3);
        proof {
            assert forall|k: int| 0 <= k < V::width() implies #[trigger] entry_indices@[k]
                == chunk@[k] as int / 8 by {
                lemma_table_index(chunk@[k]);
            }
        }
        let entries = lookup_membership_bytes(level, self.byte_set(), &entry_indices);
        let common = bit.common_bits(&entries);
        proof {
            assert forall|k: int| 0 <= k < V::width() implies (#[trigger] common@[k] != 0)
                == self@.contains(chunk@[k]) by {
                assert(bit@[k] == singles@[k - k % 16 + bit_indices@[k]]);
                assert((k - k % 16 + bit_indices@[k]) % 16 == bit_indices@[k]);
                bits::lemma_single_bit(entries@[k], chunk@[k] % 8);
                assert(8 * entry_indices@[k] + chunk@[k] as int % 8 == chunk@[k]);
                assert(bits::bit(entries@[k] as u64, chunk@[k] as int % 8) == self@.contains(
                    (8 * entry_indices@[k] + chunk@[k] as int % 8) as u8,
                ));
            }
        }
        nonzero_lanes(level, &common)
    }

    fn matches_byte(&self, byte: u8) -> (found: bool) {
        self.contains(byte)
    }
}

/// Looks each byte's high five bits up in the 256-bit table, giving the table byte
/// that holds its membership bit.
fn lookup_membership_bytes<V: Lanes>(level: Level, byte_set: &ByteSet, indices: &V) -> (entries: V)
    requires
        forall|k: int| 0 <= k < V::width() ==> #[trigger] indices@[k] < 32,
    ensures
        entries@.len() == V::width(),
        forall|k: int, i: int|
            0 <= k < V::width() && 0 <= i < 8 ==> #[trigger] bits::bit(entries@[k] as u64, i)
                == byte_set@.contains((8 * indices@[k] + i) as u8),
{
    let table = byte_set.as_array();
    let entries = V::look_up(level, table, indices);
    proof {
        assert forall|k: int, i: int| 0 <= k < V::width() && 0 <= i < 8 implies #[trigger] bits::bit(
            entries@[k] as u64,
            i,
        ) == byte_set@.contains((8 * indices@[k] + i) as u8) by {
            assert(indices@[k] < 32);
            let byte = (8 * indices@[k] + i) as u8;
            assert(byte as int / 8 == indices@[k] && byte as int % 8 == i);
            assert(byte_set@.contains(byte) == bits::bit(
                table[byte as int / 8] as u64,
                byte as int % 8,
            ));
        }
    }
    entries
}

} // verus!
