//! What kinds of sets there are, by how they are matched most cheaply.

use crate::bits;
use crate::bitset;
use crate::bitset::{ByteRange, ByteSet};
use crate::nibbles;
use crate::nibbles::{extract_fixed_nibble_table, FixedNibbleTable, NibbleLookup};
use vstd::array::array_as_slice;
use vstd::prelude::*;
use vstd::slice::*;

verus! {

/// A set of bytes in the form in which it is matched.
#[derive(Copy, Clone, Debug)]
pub enum Kind {
    /// Any set.
    AnyByte(ByteSet),
    /// Up to eight bytes, each with a group of its own.
    SmallSet { lo_lookup: NibbleLookup, hi_lookup: NibbleLookup },
    /// Bytes that have a nibble in common.
    ConstantNibble(FixedNibbleTable),
    /// One byte.
    OneByte(u8),
    /// Two bytes.
    TwoBytes([u8; 2]),
    /// Three bytes.
    ThreeBytes([u8; 3]),
    /// The bytes of a range.
    OneRange(ByteRange),
    /// No bytes.
    Never,
}

impl View for Kind {
    type V = Set<u8>;

    /// The set.
    open spec fn view(&self) -> Set<u8> {
        match *self {
            Kind::AnyByte(set) => set@,
            Kind::SmallSet { lo_lookup, hi_lookup } => nibbles::grouped(lo_lookup, hi_lookup),
            Kind::ConstantNibble(table) => table@,
            Kind::OneByte(item) => set![item],
            Kind::TwoBytes(items) => items@.to_set(),
            Kind::ThreeBytes(items) => items@.to_set(),
            Kind::OneRange(range) => range@,
            Kind::Never => Set::empty(),
        }
    }
}

/// The most bytes that are told apart by groups of their own.
pub const SMALL_SET_MAX: usize = 8;

/// The most bytes that any kind names one at a time. Past this a set is only ever a range or
/// a table, neither of which needs its members listed.
pub const MEMBERS_MAX: usize = 16;

/// Whether `kind` is the kind that matches `set` most cheaply, where `items` are its members in
/// the order in which they are known.
///
/// `fast_shuffles` tells whether the kinds that are scanned by shuffling bytes are to be had.
pub open spec fn is_cheapest(kind: Kind, set: Set<u8>, items: Seq<u8>, fast_shuffles: bool) -> bool {
    let small = set.len() <= SMALL_SET_MAX;
    let named = set.len() <= MEMBERS_MAX;
    &&& kind@ == set
    &&& if set.len() == 0 {
        kind is Never
    } else if set.len() == 1 {
        kind == Kind::OneByte(items[0])
    } else if set.len() == 2 {
        kind matches Kind::TwoBytes(pair) && pair@ == items
    } else if set.len() == 3 {
        kind matches Kind::ThreeBytes(three) && three@ == items
    } else if bitset::is_range(set) {
        kind matches Kind::OneRange(range) && range.start <= range.last
    } else if fast_shuffles && small {
        kind matches Kind::SmallSet { lo_lookup, hi_lookup } && own_groups(
            lo_lookup,
            hi_lookup,
            items,
        )
    } else if fast_shuffles && named && nibbles::shares_a_nibble(set) {
        kind is ConstantNibble
    } else {
        kind is AnyByte
    }
}

/// Whether group `i` of the lookups holds the nibbles of item `i`, and no others.
pub open spec fn own_groups(
    lo_lookup: NibbleLookup,
    hi_lookup: NibbleLookup,
    items: Seq<u8>,
) -> bool {
    &&& in_own_group(lo_lookup, items, |item: u8| nibbles::low_nibble(item))
    &&& in_own_group(hi_lookup, items, |item: u8| nibbles::high_nibble(item))
}

/// Whether group `i` of `lookup` holds the nibble of item `i`, and no other.
pub open spec fn in_own_group(
    lookup: NibbleLookup,
    items: Seq<u8>,
    nibble: spec_fn(u8) -> int,
) -> bool {
    forall|n: int, i: int|
        0 <= n < 16 && 0 <= i < 8 ==> #[trigger] bits::bit(lookup.0@[n] as u64, i) == (i
            < items.len() && nibble(items[i]) == n)
}

/// Gives each of up to eight items a group of its own.
pub fn group_items(items: &[u8]) -> (lookups: (NibbleLookup, NibbleLookup))
    requires
        items@.len() <= 8,
    ensures
        own_groups(lookups.0, lookups.1, items@),
        nibbles::grouped(lookups.0, lookups.1) == items@.to_set(),
{
    let mut lo_lookup = NibbleLookup::default();
    let mut hi_lookup = NibbleLookup::default();
    let len: usize = items.len();
    let mut i: usize = 0;
    proof {
        bits::lemma_bit_constants();
    }
    while i < len
        invariant
            i <= len == items@.len(),
            len <= 8,
            own_groups(lo_lookup, hi_lookup, items@.take(i as int)),
        decreases len - i,
    {
        let item: u8 = items[i];
        proof {
            nibbles::lemma_nibbles(item);
        }
        let ghost (lo_before, hi_before) = (lo_lookup, hi_lookup);
        lo_lookup.set(item & 0x0F, i as u8);
        hi_lookup.set(item >> 4, i as u8);
        proof {
            nibbles::lemma_set_group(lo_before, lo_lookup, item & 0x0F, i as u8);
            nibbles::lemma_set_group(hi_before, hi_lookup, item >> 4, i as u8);
            let (seen, now) = (items@.take(i as int), items@.take(i + 1));
            assert forall|g: int| 0 <= g < i implies seen[g] == #[trigger] now[g] by {}
        }
        i += 1;
    }
    proof {
        assert(items@.take(len as int) =~= items@);
        lemma_own_groups(lo_lookup, hi_lookup, items@);
    }
    (lo_lookup, hi_lookup)
}

/// Items that have a group each are all that the groups admit.
pub proof fn lemma_own_groups(lo_lookup: NibbleLookup, hi_lookup: NibbleLookup, items: Seq<u8>)
    requires
        items.len() <= 8,
        own_groups(lo_lookup, hi_lookup, items),
    ensures
        nibbles::grouped(lo_lookup, hi_lookup) == items.to_set(),
{
    assert forall|byte: u8| nibbles::grouped(lo_lookup, hi_lookup).contains(byte)
        == items.to_set().contains(byte) by {
        let (lo, hi) = (nibbles::low_nibble(byte), nibbles::high_nibble(byte));
        let (a, b) = (lo_lookup.0@[lo], hi_lookup.0@[hi]);
        bits::lemma_bit_ops(a as u64, b as u64);
        bits::lemma_zero_bits((a & b) as u64);
        bits::lemma_byte_masks(a & b, 0);
        assert((a & b) as u64 == a as u64 & b as u64);
        if items.contains(byte) {
            let i = items.index_of(byte);
            assert(bits::bit(a as u64, i) && bits::bit(b as u64, i));
            assert(bits::bit((a & b) as u64, i));
        }
        if (a & b) != 0 {
            let i = choose|i: int| #[trigger] bits::bit((a & b) as u64, i);
            assert(bits::bit(lo_lookup.0@[lo] as u64, i) && bits::bit(hi_lookup.0@[hi] as u64, i));
            assert(items[i] == byte);
        }
    }
    assert(nibbles::grouped(lo_lookup, hi_lookup) =~= items.to_set());
}

impl ByteSet {
    /// Picks the kind that matches this set most cheaply.
    ///
    /// `fast_shuffles` gates the kinds a kernel can only scan by shuffling bytes within a
    /// vector: unset for a target whose shuffles are slow, and for the word kernels, which
    /// have none.
    ///
    /// The order is by preference, not by cost to test: the earlier kinds match fewer sets
    /// but scan faster, so a set that reaches one has already been ruled out of everything
    /// above it.
    pub fn kind(&self, fast_shuffles: bool) -> (kind: Kind)
        ensures
            is_cheapest(kind, self@, bitset::members_of(self@), fast_shuffles),
    {
        let mut members: [u8; MEMBERS_MAX] = [0; MEMBERS_MAX];
        let ghost listed = bitset::members_of(self@);
        proof {
            bitset::lemma_set_len(self@);
            bitset::lemma_members_exact(self@);
            bitset::lemma_members_set(self@);
        }
        let count: usize = match self.write_members(&mut members) {
            Some(count) => count as usize,
            None => {
                // Too many members for any kind that names them. A range is still worth
                // recognising: it is two comparisons per byte however wide it is.
                return match self.as_contiguous_range() {
                    Some(range) => {
                        assert(bitset::is_range(self@));
                        Kind::OneRange(range)
                    },
                    None => {
                        assert(!bitset::is_range(self@));
                        Kind::AnyByte(*self)
                    },
                };
            },
        };
        if count == 0 {
            assert(self@ =~= Set::<u8>::empty());
            return Kind::Never;
        }
        if count == 1 {
            assert(listed =~= seq![members@[0]]);
            assert(self@ =~= set![members@[0]]);
            return Kind::OneByte(members[0]);
        }
        if count == 2 {
            let items: [u8; 2] = [members[0], members[1]];
            assert(items@ =~= listed);
            return Kind::TwoBytes(items);
        }
        if count == 3 {
            let items: [u8; 3] = [members[0], members[1], members[2]];
            assert(items@ =~= listed);
            return Kind::ThreeBytes(items);
        }
        let (start, last) = (members[0], members[count - 1]);
        proof {
            bitset::lemma_contiguous(self@);
        }
        // The members are ascending and distinct, so the set is contiguous exactly when it
        // fills the span from its first to its last.
        if (last - start) as usize + 1 == count {
            return Kind::OneRange(ByteRange { start, last });
        }
        let named = slice_subrange(array_as_slice(&members), 0, count);
        assert(named@ =~= listed);
        if fast_shuffles {
            if count <= SMALL_SET_MAX {
                let (lo_lookup, hi_lookup) = group_items(named);
                return Kind::SmallSet { lo_lookup, hi_lookup };
            }
            if let Some(table) = extract_fixed_nibble_table(named) {
                return Kind::ConstantNibble(table);
            }
        }
        Kind::AnyByte(*self)
    }
}

} // verus!
