//! Sets of byte values, one bit per value.

use crate::bits;
use core::ops::{
    BitAnd, BitAndAssign, BitOr, BitOrAssign, BitXor, BitXorAssign, Bound, Not, RangeInclusive,
    Sub, SubAssign,
};
use vstd::prelude::*;
use vstd::set_lib::*;
use vstd::std_specs::iter::*;

verus! {

/// The number of bytes in a table of one bit per byte value.
pub const TABLE_BYTES: usize = 32;

/// The number of 64-bit words in a table of one bit per byte value.
pub const TABLE_WORDS: usize = 4;

/// The values of a set as a predicate on integers.
pub open spec fn membership(set: Set<u8>) -> spec_fn(int) -> bool {
    |i: int| 0 <= i < 256 && set.contains(i as u8)
}

/// The values of a set in ascending order.
pub open spec fn members_of(set: Set<u8>) -> Seq<u8> {
    bits::positions(membership(set), 0, 256).map_values(|i: usize| i as u8)
}

/// An inclusive range of byte values; empty when `start` is past `last`.
#[derive(Copy, Clone, Debug)]
pub struct ByteRange {
    pub start: u8,
    pub last: u8,
}

impl View for ByteRange {
    type V = Set<u8>;

    /// The values from `start` through `last`.
    open spec fn view(&self) -> Set<u8> {
        Set::new(|byte: u8| self.start <= byte <= self.last)
    }
}

/// A set of byte values to search for.
///
/// Membership is one bit per value, so a set occupies 32 bytes no matter how many members it
/// holds, and adding a byte that is already a member changes nothing.
#[derive(Copy, Clone)]
pub struct ByteSet([u8; TABLE_BYTES]);

impl View for ByteSet {
    type V = Set<u8>;

    /// The byte values in the set.
    closed spec fn view(&self) -> Set<u8> {
        Set::new(|byte: u8| self.has(byte))
    }
}

/// The set whose members are `members`.
pub open spec fn with_members(members: Set<u8>) -> ByteSet {
    choose|set: ByteSet| set@ == members
}

impl ByteSet {
    /// Whether the table's bit for `byte` is set.
    closed spec fn has(&self, byte: u8) -> bool {
        bits::bit(self.0[byte as int / 8] as u64, byte as int % 8)
    }

    /// Creates a set with no members.
    pub fn new() -> (set: ByteSet)
        ensures
            set@ == Set::<u8>::empty(),
    {
        let set = ByteSet([0u8; TABLE_BYTES]);
        proof {
            bits::lemma_bit_constants();
            assert(set@ =~= Set::<u8>::empty());
        }
        set
    }

    /// Creates a set containing every byte value.
    pub fn full() -> (set: ByteSet)
        ensures
            set@ == Set::<u8>::full(),
    {
        let set = ByteSet([u8::MAX; TABLE_BYTES]);
        proof {
            bits::lemma_bit_constants();
            bits::lemma_byte_masks(0, 0);
            assert(!0u8 == u8::MAX) by (bit_vector);
            assert(set@ =~= Set::<u8>::full());
        }
        set
    }

    /// Creates a set of the distinct values in `bytes`.
    pub fn from_bytes(bytes: &[u8]) -> (set: ByteSet)
        ensures
            set@ == bytes@.to_set(),
    {
        let mut set = ByteSet::new();
        set.add_all(bytes);
        assert(set@ =~= bytes@.to_set());
        set
    }

    /// Creates a set of the bytes in an inclusive range.
    ///
    /// A range whose start is past its end gives the empty set. Of a range that has been iterated
    /// to its end, some range of bytes is taken.
    pub fn from_range(range: RangeInclusive<u8>) -> (set: ByteSet)
        ensures
            !range@.exhausted ==> set@ == (ByteRange { start: range@.start, last: range@.end })@,
            exists|bounds: ByteRange| set@ == #[trigger] bounds@,
    {
        let mut set = ByteSet::new();
        let bounds = ByteRange { start: *range.start(), last: *range.end() };
        set.add_byte_range(bounds);
        assert(set@ =~= bounds@);
        set
    }

    /// Adds `byte` to the set.
    pub fn add(&mut self, byte: u8)
        ensures
            final(self)@ == old(self)@.insert(byte),
    {
        let table_index = (byte / 8) as usize;
        let bit_index: u8 = byte % 8;
        let mask: u8 = 1u8 << bit_index;
        let table_byte: u8 = self.0[table_index];
        self.0[table_index] = table_byte | mask;
        proof {
            bits::lemma_bit_ops(table_byte as u64, mask as u64);
            bits::lemma_byte_masks(0, bit_index);
            assert forall|other: u8| self.has(other) == (old(self).has(other) || other == byte) by {
                if other as int / 8 == table_index {
                    assert(bits::bit((table_byte as u64) | (mask as u64), other as int % 8) == (
                    bits::bit(table_byte as u64, other as int % 8) || bits::bit(
                        mask as u64,
                        other as int % 8,
                    )));
                }
            }
            assert(self@ =~= old(self)@.insert(byte));
        }
    }

    /// Adds every value in `bytes` to the set.
    pub fn add_all(&mut self, bytes: &[u8])
        ensures
            final(self)@ == old(self)@.union(bytes@.to_set()),
    {
        let mut i: usize = 0;
        assert(self@ =~= old(self)@.union(bytes@.take(0).to_set()));
        while i < bytes.len()
            invariant
                i <= bytes@.len(),
                self@ == old(self)@.union(bytes@.take(i as int).to_set()),
            decreases bytes@.len() - i,
        {
            self.add(bytes[i]);
            proof {
                let seen = bytes@.take(i as int);
                let next = bytes@.take(i + 1);
                assert(next =~= seen.push(bytes@[i as int]));
                lemma_push_to_set(seen, bytes@[i as int]);
                assert(self@ =~= old(self)@.union(next.to_set()));
            }
            i += 1;
        }
        assert(bytes@.take(i as int) =~= bytes@);
    }

    /// Removes `byte` from the set.
    ///
    /// Removing a byte that is not a member has no effect.
    pub fn remove(&mut self, byte: u8)
        ensures
            final(self)@ == old(self)@.remove(byte),
    {
        let table_index = (byte / 8) as usize;
        let bit_index: u8 = byte % 8;
        let mask: u8 = 1u8 << bit_index;
        let table_byte: u8 = self.0[table_index];
        self.0[table_index] = table_byte & !mask;
        proof {
            bits::lemma_bit_ops(table_byte as u64, (!mask) as u64);
            bits::lemma_byte_masks(0, bit_index);
            assert forall|other: u8| self.has(other) == (old(self).has(other) && other != byte) by {
                if other as int / 8 == table_index {
                    assert(bits::bit((table_byte as u64) & ((!mask) as u64), other as int % 8) == (
                    bits::bit(table_byte as u64, other as int % 8) && bits::bit(
                        (!mask) as u64,
                        other as int % 8,
                    )));
                }
            }
            assert(self@ =~= old(self)@.remove(byte));
        }
    }

    /// Returns `true` when `byte` is a member of the set.
    pub fn contains(&self, byte: u8) -> (found: bool)
        ensures
            found == self@.contains(byte),
    {
        let table_index = (byte / 8) as usize;
        let bit_index: u8 = byte % 8;
        let table_byte: u8 = self.0[table_index];
        let mask: u8 = 1u8 << bit_index;
        proof {
            bits::lemma_bit_ops(table_byte as u64, mask as u64);
            bits::lemma_byte_masks(table_byte, bit_index);
            bits::lemma_byte_masks(mask, bit_index);
            bits::lemma_zero_bits((table_byte & mask) as u64);
            let both = (table_byte as u64) & (mask as u64);
            assert(bits::bit(both, bit_index as int) == self.has(byte));
            assert forall|i: int| i != bit_index implies !#[trigger] bits::bit(both, i) by {
                if 0 <= i < 8 {
                    assert(!bits::bit(mask as u64, i));
                }
            }
        }
        table_byte & mask != 0
    }

    /// Adds every byte of `range`; an empty range adds nothing.
    pub fn add_byte_range(&mut self, range: ByteRange)
        ensures
            final(self)@ == old(self)@.union(range@),
    {
        let (start, last) = (range.start, range.last);
        if start > last {
            assert(self@ =~= old(self)@.union(range@));
            return ;
        }
        let first_table_byte = (start / 8) as usize;
        let last_table_byte = (last / 8) as usize;
        let from_start: u8 = u8::MAX << (start % 8);
        let through_last: u8 = u8::MAX >> (7 - last % 8);
        proof {
            bits::lemma_byte_masks(0, start % 8);
            bits::lemma_byte_masks(0, last % 8);
        }

        if first_table_byte == last_table_byte {
            let table_byte: u8 = self.0[first_table_byte];
            self.0[first_table_byte] = table_byte | (from_start & through_last);
            proof {
                bits::lemma_bit_ops(from_start as u64, through_last as u64);
                bits::lemma_bit_ops(table_byte as u64, (from_start & through_last) as u64);
                assert forall|byte: u8| self.has(byte) == (old(self).has(byte) || start <= byte
                    <= last) by {
                    if byte as int / 8 == first_table_byte {
                        let i = byte as int % 8;
                        assert(bits::bit(
                            (table_byte as u64) | ((from_start as u64) & (through_last as u64)),
                            i,
                        ) == (bits::bit(table_byte as u64, i) || bits::bit(
                            (from_start as u64) & (through_last as u64),
                            i,
                        )));
                        assert(bits::bit(from_start as u64, i) == (start % 8 <= i));
                        assert(bits::bit(through_last as u64, i) == (i <= last % 8));
                    }
                }
                assert(self@ =~= old(self)@.union(range@));
            }
            return ;
        }
        let first_byte: u8 = self.0[first_table_byte];
        self.0[first_table_byte] = first_byte | from_start;
        let mut i: usize = first_table_byte + 1;
        while i < last_table_byte
            invariant
                first_table_byte < i <= last_table_byte < 32,
                first_byte == old(self).0[first_table_byte as int],
                forall|k: int|
                    0 <= k < 32 ==> #[trigger] self.0[k] == (if k == first_table_byte {
                        first_byte | from_start
                    } else if first_table_byte < k < i {
                        u8::MAX
                    } else {
                        old(self).0[k]
                    }),
            decreases last_table_byte - i,
        {
            self.0[i] = u8::MAX;
            i += 1;
        }
        let last_byte: u8 = self.0[last_table_byte];
        self.0[last_table_byte] = last_byte | through_last;
        proof {
            bits::lemma_bit_ops(first_byte as u64, from_start as u64);
            bits::lemma_bit_ops(last_byte as u64, through_last as u64);
            bits::lemma_byte_masks(0, 0);
            assert(!0u8 == u8::MAX) by (bit_vector);
            bits::lemma_bit_constants();
            assert forall|byte: u8| self.has(byte) == (old(self).has(byte) || start <= byte
                <= last) by {
                let k = byte as int / 8;
                let i = byte as int % 8;
                if k == first_table_byte {
                    assert(bits::bit((first_byte as u64) | (from_start as u64), i) == (bits::bit(
                        first_byte as u64,
                        i,
                    ) || bits::bit(from_start as u64, i)));
                    assert(bits::bit(from_start as u64, i) == (start % 8 <= i));
                } else if k == last_table_byte {
                    assert(bits::bit((last_byte as u64) | (through_last as u64), i) == (bits::bit(
                        last_byte as u64,
                        i,
                    ) || bits::bit(through_last as u64, i)));
                    assert(bits::bit(through_last as u64, i) == (i <= last % 8));
                }
            }
            assert(self@ =~= old(self)@.union(range@));
        }
    }
}

/// Sets of byte values are finite, and have as many members as their predicate marks values.
pub proof fn lemma_set_len(set: Set<u8>)
    ensures
        set.finite(),
        set.len() == bits::count(membership(set), 0, 256),
        set.len() <= 256,
{
    lemma_set_len_below(set, 256);
    assert(set =~= below(set, 256));
    bits::lemma_count_full(membership(set), 0, 256);
}

/// The members of `set` below `bound`.
spec fn below(set: Set<u8>, bound: int) -> Set<u8> {
    Set::new(|byte: u8| set.contains(byte) && byte < bound)
}

proof fn lemma_set_len_below(set: Set<u8>, bound: int)
    requires
        0 <= bound <= 256,
    ensures
        below(set, bound).finite(),
        below(set, bound).len() == bits::count(membership(set), 0, bound),
    decreases bound,
{
    if bound == 0 {
        assert(below(set, bound) =~= Set::empty());
    } else {
        let byte = (bound - 1) as u8;
        lemma_set_len_below(set, bound - 1);
        bits::lemma_positions_split(membership(set), 0, bound - 1, bound);
        let p = membership(set);
        assert(bits::positions(p, bound, bound) =~= Seq::empty());
        if set.contains(byte) {
            assert(p(bound - 1));
            assert(bits::positions(p, bound - 1, bound) =~= seq![(bound - 1) as usize]);
            assert(below(set, bound) =~= below(set, bound - 1).insert(byte));
        } else {
            assert(!p(bound - 1));
            assert(bits::positions(p, bound - 1, bound) =~= Seq::empty());
            assert(below(set, bound) =~= below(set, bound - 1));
        }
    }
}

/// The ascending list of a set's members is strictly ascending and holds exactly the members.
pub proof fn lemma_members_exact(set: Set<u8>)
    ensures
        members_of(set).len() == set.len(),
        forall|i: int, j: int|
            0 <= i < j < members_of(set).len() ==> #[trigger] members_of(set)[i]
                < #[trigger] members_of(set)[j],
        forall|k: int| 0 <= k < members_of(set).len() ==> set.contains(#[trigger] members_of(set)[k]),
        forall|byte: u8| set.contains(byte) ==> #[trigger] members_of(set).contains(byte),
{
    let p = membership(set);
    let all = bits::positions(p, 0, 256);
    lemma_set_len(set);
    bits::lemma_positions_exact(p, 0, 256);
    assert forall|k: int| 0 <= k < all.len() implies members_of(set)[k] == #[trigger] all[k]
        && set.contains(members_of(set)[k]) by {
        assert(p(all[k] as int));
    }
    assert forall|byte: u8| set.contains(byte) implies #[trigger] members_of(set).contains(
        byte,
    ) by {
        assert(p(byte as int));
        assert(all.contains(byte as usize));
        let k = all.index_of(byte as usize);
        assert(members_of(set)[k] == byte);
    }
}

/// How the table bits for one byte combine.
proof fn lemma_combine_at(a: ByteSet, b: ByteSet, byte: u8)
    ensures
        ({
            let (i, k) = (byte as int % 8, byte as int / 8);
            let (x, y) = (a.0[k], b.0[k]);
            &&& bits::bit((x | y) as u64, i) == (a.has(byte) || b.has(byte))
            &&& bits::bit((x & y) as u64, i) == (a.has(byte) && b.has(byte))
            &&& bits::bit((x & !y) as u64, i) == (a.has(byte) && !b.has(byte))
            &&& bits::bit((x ^ y) as u64, i) == (a.has(byte) != b.has(byte))
            &&& bits::bit((!x) as u64, i) == !a.has(byte)
        }),
{
    let (i, k) = (byte as int % 8, byte as int / 8);
    let (x, y) = (a.0[k], b.0[k]);
    bits::lemma_bit_ops(x as u64, y as u64);
    bits::lemma_bit_ops(x as u64, (!y) as u64);
    bits::lemma_byte_masks(x, 0);
    bits::lemma_byte_masks(y, 0);
    assert(bits::bit((x as u64) | (y as u64), i) == (a.has(byte) || b.has(byte)));
    assert(bits::bit((x as u64) & (y as u64), i) == (a.has(byte) && b.has(byte)));
    assert(bits::bit((x as u64) & ((!y) as u64), i) == (a.has(byte) && !b.has(byte)));
    assert(bits::bit((x as u64) ^ (y as u64), i) == (a.has(byte) != b.has(byte)));
}

impl ByteSet {
    /// The set's table byte by byte decides its members.
    proof fn lemma_combine(self, a: ByteSet, b: ByteSet)
        ensures
            (forall|k: int| 0 <= k < 32 ==> #[trigger] self.0[k] == a.0[k] | b.0[k]) ==> self@
                == a@.union(b@),
            (forall|k: int| 0 <= k < 32 ==> #[trigger] self.0[k] == a.0[k] & b.0[k]) ==> self@
                == a@.intersect(b@),
            (forall|k: int| 0 <= k < 32 ==> #[trigger] self.0[k] == a.0[k] & !b.0[k]) ==> self@
                == a@.difference(b@),
            (forall|k: int| 0 <= k < 32 ==> #[trigger] self.0[k] == a.0[k] ^ b.0[k]) ==> self@
                == a@.difference(b@).union(b@.difference(a@)),
            (forall|k: int| 0 <= k < 32 ==> #[trigger] self.0[k] == !a.0[k]) ==> self@
                == a@.complement(),
    {
        if forall|k: int| 0 <= k < 32 ==> #[trigger] self.0[k] == a.0[k] | b.0[k] {
            let combined = a@.union(b@);
            assert forall|byte: u8| #[trigger] self@.contains(byte) == combined.contains(byte) by {
                lemma_combine_at(a, b, byte);
            }
            assert(self@ =~= combined);
        }
        if forall|k: int| 0 <= k < 32 ==> #[trigger] self.0[k] == a.0[k] & b.0[k] {
            let combined = a@.intersect(b@);
            assert forall|byte: u8| #[trigger] self@.contains(byte) == combined.contains(byte) by {
                lemma_combine_at(a, b, byte);
            }
            assert(self@ =~= combined);
        }
        if forall|k: int| 0 <= k < 32 ==> #[trigger] self.0[k] == a.0[k] & !b.0[k] {
            let combined = a@.difference(b@);
            assert forall|byte: u8| #[trigger] self@.contains(byte) == combined.contains(byte) by {
                lemma_combine_at(a, b, byte);
            }
            assert(self@ =~= combined);
        }
        if forall|k: int| 0 <= k < 32 ==> #[trigger] self.0[k] == a.0[k] ^ b.0[k] {
            let combined = a@.difference(b@).union(b@.difference(a@));
            assert forall|byte: u8| #[trigger] self@.contains(byte) == combined.contains(byte) by {
                lemma_combine_at(a, b, byte);
            }
            assert(self@ =~= combined);
        }
        if forall|k: int| 0 <= k < 32 ==> #[trigger] self.0[k] == !a.0[k] {
            let combined = a@.complement();
            assert forall|byte: u8| #[trigger] self@.contains(byte) == combined.contains(byte) by {
                lemma_combine_at(a, b, byte);
            }
            assert(self@ =~= combined);
        }
    }

    /// Replaces the set with its complement.
    ///
    /// Every member is removed, and every byte that was not a member becomes one.
    pub fn invert(&mut self)
        ensures
            final(self)@ == old(self)@.complement(),
    {
        let mut i: usize = 0;
        while i < TABLE_BYTES
            invariant
                i <= 32,
                forall|k: int| 0 <= k < i ==> #[trigger] self.0[k] == !old(self).0[k],
                forall|k: int| i <= k < 32 ==> #[trigger] self.0[k] == old(self).0[k],
            decreases 32 - i,
        {
            self.0[i] = !self.0[i];
            i += 1;
        }
        proof {
            self.lemma_combine(*old(self), *old(self));
        }
    }

    /// Returns the set of bytes belonging to either set, as the `|` operator does.
    pub fn union(self, other: ByteSet) -> (result: ByteSet)
        ensures
            result@ == self@.union(other@),
    {
        let mut result = self;
        let mut i: usize = 0;
        while i < TABLE_BYTES
            invariant
                i <= 32,
                forall|k: int| 0 <= k < i ==> #[trigger] result.0[k] == self.0[k] | other.0[k],
                forall|k: int| i <= k < 32 ==> #[trigger] result.0[k] == self.0[k],
            decreases 32 - i,
        {
            result.0[i] = result.0[i] | other.0[i];
            i += 1;
        }
        proof {
            result.lemma_combine(self, other);
        }
        result
    }

    /// Returns the set of bytes belonging to both sets, as the `&` operator does.
    pub fn intersection(self, other: ByteSet) -> (result: ByteSet)
        ensures
            result@ == self@.intersect(other@),
    {
        let mut result = self;
        let mut i: usize = 0;
        while i < TABLE_BYTES
            invariant
                i <= 32,
                forall|k: int| 0 <= k < i ==> #[trigger] result.0[k] == self.0[k] & other.0[k],
                forall|k: int| i <= k < 32 ==> #[trigger] result.0[k] == self.0[k],
            decreases 32 - i,
        {
            result.0[i] = result.0[i] & other.0[i];
            i += 1;
        }
        proof {
            result.lemma_combine(self, other);
        }
        result
    }

    /// Returns the members of `self` that are not members of `other`, as the `-` operator does.
    pub fn difference(self, other: ByteSet) -> (result: ByteSet)
        ensures
            result@ == self@.difference(other@),
    {
        let mut result = self;
        let mut i: usize = 0;
        while i < TABLE_BYTES
            invariant
                i <= 32,
                forall|k: int| 0 <= k < i ==> #[trigger] result.0[k] == self.0[k] & !other.0[k],
                forall|k: int| i <= k < 32 ==> #[trigger] result.0[k] == self.0[k],
            decreases 32 - i,
        {
            result.0[i] = result.0[i] & !other.0[i];
            i += 1;
        }
        proof {
            result.lemma_combine(self, other);
        }
        result
    }

    /// Returns the bytes belonging to exactly one of the sets, as the `^` operator does.
    pub fn symmetric_difference(self, other: ByteSet) -> (result: ByteSet)
        ensures
            result@ == self@.difference(other@).union(other@.difference(self@)),
    {
        let mut result = self;
        let mut i: usize = 0;
        while i < TABLE_BYTES
            invariant
                i <= 32,
                forall|k: int| 0 <= k < i ==> #[trigger] result.0[k] == self.0[k] ^ other.0[k],
                forall|k: int| i <= k < 32 ==> #[trigger] result.0[k] == self.0[k],
            decreases 32 - i,
        {
            result.0[i] = result.0[i] ^ other.0[i];
            i += 1;
        }
        proof {
            result.lemma_combine(self, other);
        }
        result
    }

    /// Adds every byte in an inclusive range to the set.
    ///
    /// A range whose start is past its end adds nothing. Of a range that has been iterated to its
    /// end, some range of bytes is added.
    pub fn add_range(&mut self, range: RangeInclusive<u8>)
        ensures
            !range@.exhausted ==> final(self)@ == old(self)@.union(
                (ByteRange { start: range@.start, last: range@.end })@,
            ),
            exists|bounds: ByteRange| final(self)@ == old(self)@.union(#[trigger] bounds@),
    {
        let bounds = ByteRange { start: *range.start(), last: *range.end() };
        self.add_byte_range(bounds);
    }

    /// Removes every byte in an inclusive range from the set.
    ///
    /// A range whose start is past its end removes nothing. Of a range that has been iterated to
    /// its end, some range of bytes is removed.
    pub fn remove_range(&mut self, range: RangeInclusive<u8>)
        ensures
            !range@.exhausted ==> final(self)@ == old(self)@.difference(
                (ByteRange { start: range@.start, last: range@.end })@,
            ),
            exists|bounds: ByteRange| final(self)@ == old(self)@.difference(#[trigger] bounds@),
    {
        let bounds = ByteRange { start: *range.start(), last: *range.end() };
        let mut removed = ByteSet::new();
        removed.add_byte_range(bounds);
        assert(removed@ =~= bounds@);
        *self = self.difference(removed);
    }

    /// Word `i` of the table: bit `k` of it stands for the byte `64 * i + k`.
    fn word(&self, i: usize) -> (word: u64)
        requires
            i < TABLE_WORDS,
        ensures
            forall|k: int| 0 <= k < 64 ==> #[trigger] bits::bit(word, k) == self@.contains(
                (64 * i + k) as u8,
            ),
            forall|j: int|
                64 * i <= j < 64 * i + 64 ==> #[trigger] bits::bits_at(word, 64 * i)(j)
                    == membership(self@)(j),
    {
        let b: usize = i * 8;
        let bytes = [
            self.0[b],
            self.0[b + 1],
            self.0[b + 2],
            self.0[b + 3],
            self.0[b + 4],
            self.0[b + 5],
            self.0[b + 6],
            self.0[b + 7],
        ];
        let word: u64 = bits::word_from_le_bytes(bytes);
        proof {
            bits::lemma_lane_bits(word);
            assert forall|k: int| 0 <= k < 64 implies #[trigger] bits::bit(word, k)
                == self@.contains((64 * i + k) as u8) by {
                let byte = (64 * i + k) as u8;
                assert(byte as int / 8 == 8 * i + k / 8);
                assert(byte as int % 8 == k % 8);
                let l = k / 8;
                assert(bits::lane(word, l) == bytes[l]);
                assert(l == 0 || l == 1 || l == 2 || l == 3 || l == 4 || l == 5 || l == 6 || l
                    == 7);
            }
            assert forall|j: int| 64 * i <= j < 64 * i + 64 implies #[trigger] bits::bits_at(
                word,
                64 * i,
            )(j) == membership(self@)(j) by {
                assert(bits::bit(word, j - 64 * i) == self@.contains(
                    (64 * i + (j - 64 * i)) as u8,
                ));
            }
        }
        word
    }

    /// Returns the number of members, between zero and 256.
    pub fn len(&self) -> (len: usize)
        ensures
            len == self@.len(),
            len <= 256,
    {
        let ghost p = membership(self@);
        let mut len: usize = 0;
        let mut i: usize = 0;
        while i < TABLE_WORDS
            invariant
                i <= 4,
                p == membership(self@),
                len == bits::count(p, 0, 64 * i),
                len <= 64 * i,
            decreases 4 - i,
        {
            let word: u64 = self.word(i);
            proof {
                let q = bits::bits_of(word);
                assert forall|k: int| 0 <= k < 64 implies #[trigger] q(k) == p(k + 64 * i) by {
                    assert(bits::bit(word, k) == self@.contains((64 * i + k) as u8));
                }
                bits::lemma_count_shift(p, q, 64 * i, 0, 64);
                bits::lemma_positions_split(p, 0, 64 * i, 64 * i + 64);
                bits::lemma_count_full(p, 64 * i, 64 * i + 64);
            }
            len += word.count_ones() as usize;
            i += 1;
        }
        proof {
            lemma_set_len(self@);
        }
        len
    }

    /// Returns `true` when the set has no members.
    ///
    /// A searcher built from an empty set never matches.
    pub fn is_empty(&self) -> (empty: bool)
        ensures
            empty == (self@ == Set::<u8>::empty()),
    {
        let mut i: usize = 0;
        while i < TABLE_WORDS
            invariant
                i <= 4,
                forall|byte: u8| byte < 64 * i ==> !self@.contains(byte),
            decreases 4 - i,
        {
            let word: u64 = self.word(i);
            proof {
                bits::lemma_zero_bits(word);
            }
            if word != 0 {
                proof {
                    let k = choose|k: int| bits::bit(word, k);
                    assert(self@.contains((64 * i + k) as u8));
                }
                return false;
            }
            proof {
                assert forall|byte: u8| byte < 64 * (i + 1) implies !self@.contains(byte) by {
                    if byte >= 64 * i {
                        assert(!bits::bit(word, byte - 64 * i));
                    }
                }
            }
            i += 1;
        }
        assert(self@ =~= Set::<u8>::empty());
        true
    }
}

proof fn lemma_row_bits(low: u8, high: u8, k: u64)
    by (bit_vector)
    requires
        k < 16,
    ensures
        ((((low as u16) | ((high as u16) << 8)) as u64) >> k) & 1 == (if k < 8 {
            (low as u64 >> k) & 1
        } else {
            (high as u64 >> ((k - 8) as u64)) & 1
        }),
{
}

impl ByteSet {
    /// The table as an array of bytes: bit `byte % 8` of element `byte / 8` is set exactly when
    /// `byte` is a member.
    pub fn as_array(&self) -> (table: &[u8; 32])
        ensures
            forall|byte: u8| #[trigger] self@.contains(byte) == bits::bit(
                table[byte as int / 8] as u64,
                byte as int % 8,
            ),
    {
        &self.0
    }

    /// Returns the set as a 16-by-16 bit matrix indexed by high and low nibble.
    ///
    /// Bit `lo` of `rows[hi]` is set exactly when the byte `16 * hi + lo` is a member.
    pub fn nibble_rows(&self) -> (rows: [u16; 16])
        ensures
            forall|hi: int, lo: int|
                0 <= hi < 16 && 0 <= lo < 16 ==> #[trigger] bits::bit(rows[hi] as u64, lo)
                    == self@.contains((16 * hi + lo) as u8),
    {
        let mut rows: [u16; 16] = [0u16; 16];
        let mut hi: usize = 0;
        while hi < 16
            invariant
                hi <= 16,
                forall|h: int, lo: int|
                    0 <= h < hi && 0 <= lo < 16 ==> #[trigger] bits::bit(rows[h] as u64, lo)
                        == self@.contains((16 * h + lo) as u8),
            decreases 16 - hi,
        {
            let (low, high) = (self.0[hi * 2], self.0[hi * 2 + 1]);
            let row: u16 = (low as u16) | ((high as u16) << 8);
            rows[hi] = row;
            proof {
                assert forall|lo: int| 0 <= lo < 16 implies #[trigger] bits::bit(row as u64, lo)
                    == self@.contains((16 * hi + lo) as u8) by {
                    lemma_row_bits(low, high, lo as u64);
                    let byte = (16 * hi + lo) as u8;
                    assert(byte as int / 8 == 2 * hi + lo / 8);
                    assert(byte as int % 8 == lo % 8);
                }
            }
            hi += 1;
        }
        rows
    }

    /// Returns the one byte that is not a member, when there is exactly one.
    pub fn excluded_byte(&self) -> (excluded: Option<u8>)
        ensures
            excluded matches Some(byte) ==> self@ == Set::<u8>::full().remove(byte),
            excluded is None ==> forall|byte: u8|
                self@ != #[trigger] Set::<u8>::full().remove(byte),
    {
        let mut excluded: Option<u8> = None;
        let mut i: usize = 0;
        while i < TABLE_WORDS
            invariant
                i <= 4,
                excluded is None ==> forall|byte: u8| byte < 64 * i ==> self@.contains(byte),
                excluded matches Some(hole) ==> hole < 64 * i && forall|byte: u8|
                    byte < 64 * i ==> self@.contains(byte) == (byte != hole),
            decreases 4 - i,
        {
            let word: u64 = self.word(i);
            let missing: u64 = !word;
            proof {
                bits::lemma_bit_ops(word, word);
                bits::lemma_zero_bits(missing);
                assert forall|byte: u8|
                    64 * i <= byte < 64 * (i + 1) implies #[trigger] self@.contains(byte)
                    == !bits::bit(missing, byte - 64 * i) by {
                    assert(bits::bit(word, byte - 64 * i) == self@.contains(
                        (64 * i + (byte - 64 * i)) as u8,
                    ));
                }
            }
            if missing == 0 {
                i += 1;
                continue ;
            }
            proof {
                bits::lemma_lowest_bit(missing);
                bits::lemma_positions_exact(bits::bits_of(missing), 0, 64);
            }
            let low = missing.trailing_zeros();
            let ghost lowest = (64 * i + low) as u8;
            assert(!self@.contains(lowest)) by {
                assert(bits::bit(missing, lowest - 64 * i));
            }
            if excluded.is_some() || missing.count_ones() != 1 {
                proof {
                    let marks = bits::positions(bits::bits_of(missing), 0, 64);
                    let other: u8 = if excluded is Some {
                        excluded->0
                    } else {
                        assert(marks.contains(low as usize)) by {
                            assert(bits::bits_of(missing)(low as int));
                        }
                        let at = marks.index_of(low as usize);
                        let k = if at == 0 {
                            1
                        } else {
                            0
                        };
                        assert(marks[k] != marks[at]);
                        assert(bits::bits_of(missing)(marks[k] as int));
                        (64 * i + marks[k]) as u8
                    };
                    assert(!self@.contains(other)) by {
                        if excluded is None {
                            assert(bits::bit(missing, other - 64 * i));
                        }
                    }
                    assert(other != lowest);
                    assert forall|byte: u8| self@ != #[trigger] Set::<u8>::full().remove(byte) by {
                        assert(Set::<u8>::full().remove(byte).contains(other)
                            || Set::<u8>::full().remove(byte).contains(lowest));
                    }
                }
                return None;
            }
            let hole: u8 = (i * 64) as u8 + low as u8;
            proof {
                bits::lemma_positions_first(bits::bits_of(missing), 0, low as int, 64);
                bits::lemma_count_zero(bits::bits_of(missing), low + 1, 64);
                assert forall|byte: u8| byte < 64 * (i + 1) implies self@.contains(byte) == (byte
                    != hole) by {
                    if 64 * i <= byte {
                        let k = byte - 64 * i;
                        assert(self@.contains(byte) == !bits::bit(missing, k));
                        if k > low {
                            assert(!bits::bits_of(missing)(k));
                        }
                    }
                }
            }
            excluded = Some(hole);
            i += 1;
        }
        proof {
            if let Some(hole) = excluded {
                assert(self@ =~= Set::<u8>::full().remove(hole));
            } else {
                assert forall|byte: u8| self@ != #[trigger] Set::<u8>::full().remove(byte) by {
                    assert(self@.contains(byte));
                    assert(!Set::<u8>::full().remove(byte).contains(byte));
                }
            }
        }
        excluded
    }

    /// Returns the range that the members fill, when they fill one.
    pub fn as_contiguous_range(&self) -> (range: Option<ByteRange>)
        ensures
            range matches Some(filled) ==> filled.start <= filled.last && self@ == filled@,
            range is None ==> forall|filled: ByteRange|
                filled.start <= filled.last ==> self@ != #[trigger] filled@,
    {
        let ghost p = membership(self@);
        let mut first: Option<u32> = None;
        let mut last: u32 = 0;
        let mut count: u32 = 0;
        let mut i: usize = 0;
        while i < TABLE_WORDS
            invariant
                i <= 4,
                p == membership(self@),
                count == bits::count(p, 0, 64 * i),
                count <= 64 * i,
                first is None ==> forall|j: int| 0 <= j < 64 * i ==> !#[trigger] p(j),
                first matches Some(low) ==> {
                    &&& low <= last < 64 * i
                    &&& p(low as int)
                    &&& p(last as int)
                    &&& forall|j: int| 0 <= j < low ==> !#[trigger] p(j)
                    &&& forall|j: int| last < j < 64 * i ==> !#[trigger] p(j)
                },
            decreases 4 - i,
        {
            let word: u64 = self.word(i);
            proof {
                let q = bits::bits_of(word);
                assert forall|k: int| 0 <= k < 64 implies #[trigger] q(k) == p(k + 64 * i) by {
                    assert(bits::bit(word, k) == self@.contains((64 * i + k) as u8));
                }
                bits::lemma_count_shift(p, q, 64 * i, 0, 64);
                bits::lemma_positions_split(p, 0, 64 * i, 64 * i + 64);
                bits::lemma_count_full(p, 64 * i, 64 * i + 64);
                bits::lemma_zero_bits(word);
                assert forall|j: int| 64 * i <= j < 64 * i + 64 implies #[trigger] p(j)
                    == bits::bit(word, j - 64 * i) by {
                    assert(q(j - 64 * i) == p(j - 64 * i + 64 * i));
                }
            }
            if word != 0 {
                proof {
                    bits::lemma_lowest_bit(word);
                    bits::lemma_highest_bit(word);
                }
                let base: u32 = (i * 64) as u32;
                if first.is_none() {
                    first = Some(base + word.trailing_zeros());
                }
                last = base + 64 - 1 - word.leading_zeros();
                count += word.count_ones();
                proof {
                    assert(p(last as int));
                    assert(p(first->0 as int));
                }
            } else {
                proof {
                    bits::lemma_count_zero(p, 64 * i, 64 * i + 64);
                }
            }
            i += 1;
        }
        let Some(first) = first else {
            proof {
                assert forall|filled: ByteRange| filled.start <= filled.last implies self@
                    != #[trigger] filled@ by {
                    assert(!p(filled.start as int));
                    assert(filled@.contains(filled.start));
                }
            }
            return None;
        };
        proof {
            bits::lemma_positions_split(p, 0, first as int, 256);
            bits::lemma_positions_split(p, first as int, last + 1, 256);
            bits::lemma_positions_none(p, 0, first as int);
            bits::lemma_positions_none(p, last + 1, 256);
            bits::lemma_count_full(p, first as int, last + 1);
        }
        // A set is contiguous when its members fill its span.
        if count != last - first + 1 {
            proof {
                assert forall|filled: ByteRange| filled.start <= filled.last implies self@
                    != #[trigger] filled@ by {
                    if self@ == filled@ {
                        assert(self@.contains(first as u8));
                        assert(self@.contains(last as u8));
                        assert forall|j: int| first <= j < last + 1 implies #[trigger] p(j) by {
                            assert(filled@.contains(j as u8));
                        }
                    }
                }
            }
            return None;
        }
        let range = ByteRange { start: first as u8, last: last as u8 };
        proof {
            assert forall|byte: u8| self@.contains(byte) == range@.contains(byte) by {
                assert(p(byte as int) == self@.contains(byte));
            }
            assert(self@ =~= range@);
        }
        Some(range)
    }

    /// Writes the members to `members` in ascending order, as many as fit.
    ///
    /// Returns the number of members, cut to a byte, or `None` when there are more than fit.
    pub fn write_members<const N: usize>(&self, members: &mut [u8; N]) -> (count: Option<u8>)
        ensures
            count is None <==> self@.len() > N,
            count matches Some(count) ==> count == self@.len() % 256,
            forall|k: int|
                0 <= k < N ==> #[trigger] final(members)[k] == (if k < self@.len() {
                    members_of(self@)[k]
                } else {
                    old(members)[k]
                }),
    {
        let ghost p = membership(self@);
        let ghost all = bits::positions(p, 0, 256);
        let ghost mut done: Seq<usize> = Seq::empty();
        let mut count: usize = 0;
        let mut i: usize = 0;
        proof {
            lemma_set_len(self@);
            assert(done + bits::positions(p, 0, 256) =~= all);
        }
        while i < TABLE_WORDS
            invariant
                i <= 4,
                p == membership(self@),
                all == bits::positions(p, 0, 256),
                self@.len() == all.len(),
                done + bits::positions(p, 64 * i, 256) == all,
                done.len() == count,
                count <= N,
                forall|k: int|
                    0 <= k < N ==> #[trigger] members[k] == (if k < count {
                        members_of(self@)[k]
                    } else {
                        old(members)[k]
                    }),
            decreases 4 - i,
        {
            let mut word: u64 = self.word(i);
            let ghost rest = bits::positions(p, 64 * i + 64, 256);
            proof {
                bits::lemma_positions_split(p, 64 * i, 64 * i + 64, 256);
                bits::lemma_positions_agree(
                    bits::bits_at(word, 64 * i),
                    p,
                    64 * i,
                    64 * i + 64,
                );
                assert(done + bits::positions(bits::bits_at(word, 64 * i), 64 * i, 64 * i + 64)
                    + rest =~= all);
            }
            while word != 0
                invariant
                    i < 4,
                    all == bits::positions(p, 0, 256),
                    p == membership(self@),
                    self@.len() == all.len(),
                    done + bits::positions(bits::bits_at(word, 64 * i), 64 * i, 64 * i + 64)
                        + rest == all,
                    done.len() == count,
                    count <= N,
                    forall|k: int|
                        0 <= k < N ==> #[trigger] members[k] == (if k < count {
                            members_of(self@)[k]
                        } else {
                            old(members)[k]
                        }),
                decreases bits::positions(bits::bits_at(word, 64 * i), 64 * i, 64 * i + 64).len(),
            {
                proof {
                    bits::lemma_lowest_bit(word);
                    bits::lemma_clear_lowest(word, 64 * i);
                }
                let ghost at = (64 * i + word.trailing_zeros()) as usize;
                let ghost after = bits::positions(
                    bits::bits_at(word & (word - 1) as u64, 64 * i),
                    64 * i,
                    64 * i + 64,
                );
                proof {
                    assert(all =~= done + seq![at] + after + rest);
                    assert(all[count as int] == at);
                }
                if count == N {
                    return None;
                }
                members[count] = (i * 64) as u8 + word.trailing_zeros() as u8;
                proof {
                    assert(members_of(self@)[count as int] == at as u8);
                    done = done.push(at);
                    assert(done + after + rest =~= all);
                }
                word = word & (word - 1);
                count += 1;
            }
            proof {
                bits::lemma_bit_constants();
                bits::lemma_positions_none(
                    bits::bits_at(word, 64 * i),
                    64 * i,
                    64 * i + 64,
                );
                assert(done + Seq::<usize>::empty() + rest =~= done + rest);
            }
            i += 1;
        }
        proof {
            assert(bits::positions(p, 256, 256) =~= Seq::empty());
            assert(done =~= all);
        }
        Some((count % 256) as u8)
    }
}

impl ByteSet {
    /// Returns the members in ascending order.
    pub fn members(&self) -> (members: Vec<u8>)
        ensures
            members@ == members_of(self@),
            forall|byte: u8| self@.contains(byte) <==> #[trigger] members@.contains(byte),
            forall|i: int, j: int| 0 <= i < j < members@.len() ==> members@[i] < members@[j],
    {
        let ghost p = membership(self@);
        let ghost as_byte = |i: usize| i as u8;
        let mut members: Vec<u8> = Vec::new();
        let mut next: usize = 0;
        assert(members@ =~= bits::positions(p, 0, 0).map_values(as_byte));
        while next < 256
            invariant
                next <= 256,
                p == membership(self@),
                as_byte == (|i: usize| i as u8),
                members@ == bits::positions(p, 0, next as int).map_values(as_byte),
            decreases 256 - next,
        {
            let byte: u8 = next as u8;
            proof {
                bits::lemma_positions_split(p, 0, next as int, next + 1);
                assert(bits::positions(p, next + 1, next + 1) =~= Seq::empty());
                assert(bits::positions(p, next as int, next + 1) =~= if p(next as int) {
                    seq![next]
                } else {
                    Seq::empty()
                });
            }
            if self.contains(byte) {
                members.push(byte);
            }
            next += 1;
            assert(members@ =~= bits::positions(p, 0, next as int).map_values(as_byte));
        }
        proof {
            lemma_members_exact(self@);
            assert forall|byte: u8| self@.contains(byte) <==> #[trigger] members@.contains(
                byte,
            ) by {
                if members@.contains(byte) {
                    assert(self@.contains(members@[members@.index_of(byte)]));
                }
            }
        }
        members
    }
}

impl Default for ByteSet {
    /// The set with no members.
    fn default() -> (set: ByteSet)
        ensures
            set@ == Set::<u8>::empty(),
    {
        ByteSet::new()
    }
}

impl PartialEq for ByteSet {
    /// Sets are equal when they have the same members.
    fn eq(&self, other: &ByteSet) -> (same: bool)
        ensures
            same <==> forall|byte: u8| #[trigger] self@.contains(byte) <==> other@.contains(byte),
    {
        let mut i: usize = 0;
        while i < TABLE_BYTES
            invariant
                i <= 32,
                forall|k: int| 0 <= k < i ==> #[trigger] self.0[k] == other.0[k],
            decreases 32 - i,
        {
            if self.0[i] != other.0[i] {
                proof {
                    self.lemma_different_byte(*other, i as int);
                }
                return false;
            }
            i += 1;
        }
        assert(self@ =~= other@);
        true
    }
}

impl vstd::std_specs::cmp::PartialEqSpecImpl for ByteSet {
    open spec fn obeys_eq_spec() -> bool {
        true
    }

    open spec fn eq_spec(&self, other: &ByteSet) -> bool {
        self@ == other@
    }
}

impl Eq for ByteSet {

}

impl ByteSet {
    /// Tables that differ in a byte stand for different sets.
    proof fn lemma_different_byte(self, other: ByteSet, k: int)
        requires
            0 <= k < 32,
            self.0[k] != other.0[k],
        ensures
            self@ != other@,
            exists|byte: u8| #[trigger] self@.contains(byte) != other@.contains(byte),
    {
        if self@ == other@ {
            let (x, y) = (self.0[k], other.0[k]);
            assert forall|i: int| 0 <= i < 64 implies #[trigger] bits::bit(x as u64, i)
                == bits::bit(y as u64, i) by {
                if i < 8 {
                    let byte = (8 * k + i) as u8;
                    assert(byte as int / 8 == k && byte as int % 8 == i);
                    assert(self@.contains(byte) == other@.contains(byte));
                } else {
                    bits::lemma_byte_masks(x, 0);
                    bits::lemma_byte_masks(y, 0);
                }
            }
            bits::lemma_same_bits(x as u64, y as u64);
        }
        if forall|byte: u8| #[trigger] self@.contains(byte) == other@.contains(byte) {
            assert(self@ =~= other@);
        }
    }

    /// Sets with the same members are the same.
    pub proof fn lemma_same_members(self, other: ByteSet)
        requires
            self@ == other@,
        ensures
            self == other,
    {
        assert forall|k: int| 0 <= k < 32 implies self.0[k] == other.0[k] by {
            if self.0[k] != other.0[k] {
                self.lemma_different_byte(other, k);
            }
        }
        assert(self.0 =~= other.0);
    }

    /// There is a set with one member more.
    proof fn lemma_grown(self, byte: u8) -> (grown: ByteSet)
        ensures
            grown@ == self@.insert(byte),
    {
        let k = byte as int / 8;
        let bit_index: u8 = byte % 8;
        let mask: u8 = 1u8 << bit_index;
        let table_byte = self.0[k];
        let grown = ByteSet(vstd::array::spec_array_update(self.0, k, table_byte | mask));
        bits::lemma_bit_ops(table_byte as u64, mask as u64);
        bits::lemma_byte_masks(0, bit_index);
        assert(grown.0@ == self.0@.update(k, table_byte | mask));
        assert forall|other: u8| grown.has(other) == (self.has(other) || other == byte) by {
            if other as int / 8 == k {
                assert(bits::bit((table_byte as u64) | (mask as u64), other as int % 8) == (
                bits::bit(table_byte as u64, other as int % 8) || bits::bit(
                    mask as u64,
                    other as int % 8,
                )));
            }
        }
        assert(grown@ =~= self@.insert(byte));
        grown
    }

    /// There is a set with the members of `members` below `bound`.
    proof fn lemma_exists_below(members: Set<u8>, bound: int) -> (set: ByteSet)
        requires
            0 <= bound <= 256,
        ensures
            set@ == below(members, bound),
        decreases bound,
    {
        if bound == 0 {
            let set = ByteSet(vstd::array::spec_array_fill_for_copy_type(0u8));
            bits::lemma_bit_constants();
            assert(set@ =~= below(members, 0));
            set
        } else {
            let before = ByteSet::lemma_exists_below(members, bound - 1);
            let byte = (bound - 1) as u8;
            let grown = before.lemma_grown(byte);
            assert(below(members, bound) =~= if members.contains(byte) {
                grown@
            } else {
                before@
            });
            if members.contains(byte) {
                grown
            } else {
                before
            }
        }
    }

    /// Any members make a set.
    pub proof fn lemma_with_members(members: Set<u8>)
        ensures
            with_members(members)@ == members,
    {
        let set = ByteSet::lemma_exists_below(members, 256);
        assert(set@ =~= members);
    }

    /// A set is the one with its members.
    pub proof fn lemma_determined(self)
        ensures
            self == with_members(self@),
    {
        self.lemma_same_members(with_members(self@));
    }

    /// Adds every byte that `iter` yields to the set.
    pub fn extend<I: Iterator<Item = u8>>(&mut self, iter: I)
        requires
            iter.obeys_prophetic_iter_laws(),
            iter.decrease() is Some,
        ensures
            final(self)@ == old(self)@.union(iter.remaining().to_set()),
    {
        let mut iter = iter;
        let ghost all = iter.remaining();
        let ghost mut seen: Seq<u8> = Seq::empty();
        assert(seen + iter.remaining() =~= all);
        assert(self@ =~= old(self)@.union(seen.to_set()));
        loop
            invariant_except_break
                seen + iter.remaining() == all,
            invariant
                iter.obeys_prophetic_iter_laws(),
                iter.decrease() is Some,
                self@ == old(self)@.union(seen.to_set()),
            ensures
                seen == all,
            decreases iter.decrease()->0,
        {
            let ghost rest = iter.remaining();
            match iter.next() {
                Some(byte) => {
                    self.add(byte);
                    proof {
                        assert(seen.push(byte) + rest.drop_first() =~= all);
                        lemma_push_to_set(seen, byte);
                        seen = seen.push(byte);
                        assert(self@ =~= old(self)@.union(seen.to_set()));
                    }
                },
                None => {
                    assert(seen =~= all);
                    break ;
                },
            }
        }
    }

    /// Creates a set of the distinct bytes that `iter` yields.
    pub fn from_iter<I: Iterator<Item = u8>>(iter: I) -> (set: ByteSet)
        requires
            iter.obeys_prophetic_iter_laws(),
            iter.decrease() is Some,
        ensures
            set@ == iter.remaining().to_set(),
    {
        let mut set = ByteSet::new();
        set.extend(iter);
        assert(set@ =~= iter.remaining().to_set());
        set
    }
}

/// Appending an item adds it to the set of a sequence's items.
pub proof fn lemma_push_to_set(items: Seq<u8>, item: u8)
    ensures
        items.push(item).to_set() == items.to_set().insert(item),
{
    let pushed = items.push(item);
    assert forall|byte: u8| pushed.to_set().contains(byte) == items.to_set().insert(
        item,
    ).contains(byte) by {
        if items.contains(byte) {
            let k = items.index_of(byte);
            assert(pushed[k] == byte);
        }
        if pushed.contains(byte) && byte != item {
            let k = pushed.index_of(byte);
            assert(items[k] == byte);
        }
        assert(pushed[items.len() as int] == item);
    }
    assert(pushed.to_set() =~= items.to_set().insert(item));
}

impl Not for ByteSet {
    type Output = ByteSet;

    /// The bytes that are not members.
    fn not(self) -> (result: ByteSet)
        ensures
            result@ == self@.complement(),
    {
        let mut result = self;
        result.invert();
        proof {
            result.lemma_determined();
        }
        result
    }
}

impl vstd::std_specs::ops::NotSpecImpl for ByteSet {
    open spec fn obeys_not_spec() -> bool {
        true
    }

    open spec fn not_req(self) -> bool {
        true
    }

    open spec fn not_spec(self) -> ByteSet {
        with_members(self@.complement())
    }
}

impl BitOr for ByteSet {
    type Output = ByteSet;

    /// The bytes belonging to either set.
    fn bitor(self, rhs: ByteSet) -> (result: ByteSet)
        ensures
            result@ == self@.union(rhs@),
    {
        let result = self.union(rhs);
        proof {
            result.lemma_determined();
        }
        result
    }
}

impl vstd::std_specs::ops::BitOrSpecImpl for ByteSet {
    open spec fn obeys_bitor_spec() -> bool {
        true
    }

    open spec fn bitor_req(self, rhs: ByteSet) -> bool {
        true
    }

    open spec fn bitor_spec(self, rhs: ByteSet) -> ByteSet {
        with_members(self@.union(rhs@))
    }
}

impl BitOrAssign for ByteSet {
    /// Replaces the left set with the combination.
    fn bitor_assign(&mut self, rhs: ByteSet)
        ensures
            final(self)@ == old(self)@.union(rhs@),
    {
        *self = self.union(rhs);
    }
}

impl BitAnd for ByteSet {
    type Output = ByteSet;

    /// The bytes belonging to both sets.
    fn bitand(self, rhs: ByteSet) -> (result: ByteSet)
        ensures
            result@ == self@.intersect(rhs@),
    {
        let result = self.intersection(rhs);
        proof {
            result.lemma_determined();
        }
        result
    }
}

impl vstd::std_specs::ops::BitAndSpecImpl for ByteSet {
    open spec fn obeys_bitand_spec() -> bool {
        true
    }

    open spec fn bitand_req(self, rhs: ByteSet) -> bool {
        true
    }

    open spec fn bitand_spec(self, rhs: ByteSet) -> ByteSet {
        with_members(self@.intersect(rhs@))
    }
}

impl BitAndAssign for ByteSet {
    /// Replaces the left set with the combination.
    fn bitand_assign(&mut self, rhs: ByteSet)
        ensures
            final(self)@ == old(self)@.intersect(rhs@),
    {
        *self = self.intersection(rhs);
    }
}

impl BitXor for ByteSet {
    type Output = ByteSet;

    /// The bytes belonging to exactly one of the sets.
    fn bitxor(self, rhs: ByteSet) -> (result: ByteSet)
        ensures
            result@ == self@.difference(rhs@).union(rhs@.difference(self@)),
    {
        let result = self.symmetric_difference(rhs);
        proof {
            result.lemma_determined();
        }
        result
    }
}

impl vstd::std_specs::ops::BitXorSpecImpl for ByteSet {
    open spec fn obeys_bitxor_spec() -> bool {
        true
    }

    open spec fn bitxor_req(self, rhs: ByteSet) -> bool {
        true
    }

    open spec fn bitxor_spec(self, rhs: ByteSet) -> ByteSet {
        with_members(self@.difference(rhs@).union(rhs@.difference(self@)))
    }
}

impl BitXorAssign for ByteSet {
    /// Replaces the left set with the combination.
    fn bitxor_assign(&mut self, rhs: ByteSet)
        ensures
            final(self)@ == old(self)@.difference(rhs@).union(rhs@.difference(old(self)@)),
    {
        *self = self.symmetric_difference(rhs);
    }
}

impl Sub for ByteSet {
    type Output = ByteSet;

    /// The members of the left set that are not members of the right one.
    fn sub(self, rhs: ByteSet) -> (result: ByteSet)
        ensures
            result@ == self@.difference(rhs@),
    {
        let result = self.difference(rhs);
        proof {
            result.lemma_determined();
        }
        result
    }
}

impl vstd::std_specs::ops::SubSpecImpl for ByteSet {
    open spec fn obeys_sub_spec() -> bool {
        true
    }

    open spec fn sub_req(self, rhs: ByteSet) -> bool {
        true
    }

    open spec fn sub_spec(self, rhs: ByteSet) -> ByteSet {
        with_members(self@.difference(rhs@))
    }
}

impl SubAssign for ByteSet {
    /// Replaces the left set with the combination.
    fn sub_assign(&mut self, rhs: ByteSet)
        ensures
            final(self)@ == old(self)@.difference(rhs@),
    {
        *self = self.difference(rhs);
    }
}

/// Builds the set whose table is made of `words`: bit `k` of word `i` stands for the byte
/// `64 * i + k`.
pub fn byte_set_from_words(words: [u64; 4]) -> (set: ByteSet)
    ensures
        forall|byte: u8| #[trigger] set@.contains(byte) == bits::bit(
            words[byte as int / 64],
            byte as int % 64,
        ),
{
    let mut set = ByteSet::new();
    let mut i: usize = 0;
    while i < TABLE_WORDS
        invariant
            i <= 4,
            forall|byte: u8| #[trigger] set@.contains(byte) == (byte < 64 * i && bits::bit(
                words[byte as int / 64],
                byte as int % 64,
            )),
        decreases 4 - i,
    {
        let base: u8 = (i * 64) as u8;
        let mut word: u64 = words[i];
        while word != 0
            invariant
                i < 4,
                base == 64 * i,
                forall|byte: u8| #[trigger] set@.contains(byte) == (byte < 64 * i + 64 && bits::bit(
                    words[byte as int / 64],
                    byte as int % 64,
                ) && !(64 * i <= byte && bits::bit(word, byte - 64 * i))),
                forall|k: int| #[trigger] bits::bit(word, k) ==> bits::bit(words[i as int], k),
            decreases bits::positions(bits::bits_at(word, 0), 0, 64).len(),
        {
            proof {
                bits::lemma_lowest_bit(word);
                bits::lemma_clear_lowest(word, 0);
            }
            set.add(base + word.trailing_zeros() as u8);
            word = word & (word - 1);
        }
        proof {
            bits::lemma_bit_constants();
        }
        i += 1;
    }
    set
}

/// `Bound` is one end of a range: a value that is in the range, a value that is just outside it,
/// or no end at all.
#[verifier::external_type_specification]
#[verifier::reject_recursive_types(T)]
pub struct ExBound<T>(Bound<T>);

/// Whether `byte` lies within a pair of bounds.
pub open spec fn within(bounds: (Bound<u8>, Bound<u8>), byte: u8) -> bool {
    &&& match bounds.0 {
        Bound::Included(start) => start <= byte,
        Bound::Excluded(start) => start < byte,
        Bound::Unbounded => true,
    }
    &&& match bounds.1 {
        Bound::Included(last) => byte <= last,
        Bound::Excluded(last) => byte < last,
        Bound::Unbounded => true,
    }
}

/// The byte values within a pair of bounds.
pub open spec fn bounded_set(bounds: (Bound<u8>, Bound<u8>)) -> Set<u8> {
    Set::new(|byte: u8| within(bounds, byte))
}

/// Turns a pair of bounds into the inclusive range of the bytes within them, if there are any.
pub fn inclusive_range(bounds: (Bound<u8>, Bound<u8>)) -> (range: Option<ByteRange>)
    ensures
        range matches Some(range) ==> range.start <= range.last && range@ == bounded_set(bounds),
        range is None ==> bounded_set(bounds) == Set::<u8>::empty(),
{
    let start: u8 = match bounds.0 {
        Bound::Included(start) => start,
        Bound::Excluded(start) => match start.checked_add(1) {
            Some(start) => start,
            None => {
                assert(bounded_set(bounds) =~= Set::<u8>::empty());
                return None;
            },
        },
        Bound::Unbounded => u8::MIN,
    };
    let last: u8 = match bounds.1 {
        Bound::Included(last) => last,
        Bound::Excluded(last) => match last.checked_sub(1) {
            Some(last) => last,
            None => {
                assert(bounded_set(bounds) =~= Set::<u8>::empty());
                return None;
            },
        },
        Bound::Unbounded => u8::MAX,
    };
    if start > last {
        assert(bounded_set(bounds) =~= Set::<u8>::empty());
        return None;
    }
    let range = ByteRange { start, last };
    assert(range@ =~= bounded_set(bounds));
    Some(range)
}

/// Listing the members of a set loses none of them and adds none.
pub proof fn lemma_members_set(set: Set<u8>)
    ensures
        members_of(set).to_set() == set,
{
    lemma_members_exact(set);
    let listed = members_of(set);
    assert forall|byte: u8| listed.to_set().contains(byte) == set.contains(byte) by {
        if listed.contains(byte) {
            assert(set.contains(listed[listed.index_of(byte)]));
        }
        if set.contains(byte) {
            assert(listed.contains(byte));
        }
    }
    assert(listed.to_set() =~= set);
}

/// Whether the members of `set` fill a range.
pub open spec fn is_range(set: Set<u8>) -> bool {
    exists|range: ByteRange| range.start <= range.last && set == #[trigger] range@
}

/// The range that the members of `set` fill.
pub open spec fn range_of(set: Set<u8>) -> ByteRange
    recommends
        is_range(set),
{
    choose|range: ByteRange| range.start <= range.last && set == #[trigger] range@
}

/// No two ranges have the same members, unless they have none.
pub proof fn lemma_range_of(range: ByteRange)
    requires
        range.start <= range.last,
    ensures
        is_range(range@),
        range_of(range@) == range,
{
    let same = range_of(range@);
    assert(is_range(range@));
    assert(same@.contains(same.start) && same@.contains(same.last));
    assert(range@.contains(range.start) && range@.contains(range.last));
}

/// Whether `set` holds every byte but one.
pub open spec fn is_all_but_one(set: Set<u8>) -> bool {
    exists|byte: u8| set == #[trigger] Set::<u8>::full().remove(byte)
}

/// A range has as many members as from its start to its last byte, and any set that holds them all
/// has no fewer.
pub proof fn lemma_range_len(range: ByteRange, set: Set<u8>)
    requires
        range.start <= range.last,
        range@.subset_of(set),
    ensures
        range@.len() == range.last - range.start + 1,
        set.len() >= range@.len(),
{
    let p = membership(range@);
    let (start, last) = (range.start as int, range.last as int);
    lemma_set_len(range@);
    lemma_set_len(set);
    bits::lemma_positions_split(p, 0, start, 256);
    bits::lemma_positions_split(p, start, last + 1, 256);
    bits::lemma_positions_none(p, 0, start);
    bits::lemma_positions_none(p, last + 1, 256);
    bits::lemma_count_full(p, start, last + 1);
    lemma_len_subset(range@, set);
}

/// The members of a set fill a range exactly when there are as many of them as from the first
/// member to the last.
pub proof fn lemma_contiguous(set: Set<u8>)
    requires
        set.len() > 0,
    ensures
        members_of(set).len() == set.len(),
        ({
            let members = members_of(set);
            let range = ByteRange { start: members[0], last: members.last() };
            &&& range.start <= range.last
            &&& range.last - range.start + 1 == set.len() <==> is_range(set)
            &&& range.last - range.start + 1 == set.len() ==> set == range@
        }),
{
    lemma_set_len(set);
    lemma_members_exact(set);
    let members = members_of(set);
    let range = ByteRange { start: members[0], last: members.last() };
    let (start, last) = (range.start as int, range.last as int);
    let p = membership(set);
    assert forall|byte: u8| set.contains(byte) implies start <= byte <= last by {
        assert(members.contains(byte));
        let k = members.index_of(byte);
        assert(members[0] <= members[k] && members[k] <= members.last());
    }
    assert(set.contains(members[0]) && set.contains(members.last()));
    bits::lemma_positions_split(p, 0, start, 256);
    bits::lemma_positions_split(p, start, last + 1, 256);
    bits::lemma_positions_none(p, 0, start);
    bits::lemma_positions_none(p, last + 1, 256);
    bits::lemma_count_full(p, start, last + 1);
    if last - start + 1 == set.len() {
        assert forall|byte: u8| set.contains(byte) == range@.contains(byte) by {
            if start <= byte <= last {
                assert(p(byte as int));
            }
        }
        assert(set =~= range@);
    }
    if is_range(set) {
        let filled = choose|filled: ByteRange|
            filled.start <= filled.last && set == #[trigger] filled@;
        assert(filled@.contains(filled.start) && filled@.contains(filled.last));
        assert forall|i: int| start <= i < last + 1 implies #[trigger] p(i) by {
            assert(filled@.contains(i as u8));
        }
    }
}

/// `RangeInclusive::start` returns the lower bound of a range that has not been iterated to its
/// end; of one that has, the documentation leaves the value open.
pub assume_specification<Idx>[ RangeInclusive::<Idx>::start ](
    range: &RangeInclusive<Idx>,
) -> (start: &Idx)
    ensures
        !range@.exhausted ==> *start == range@.start,
;

/// `RangeInclusive::end` returns the upper bound of a range that has not been iterated to its
/// end; of one that has, the documentation leaves the value open.
pub assume_specification<Idx>[ RangeInclusive::<Idx>::end ](
    range: &RangeInclusive<Idx>,
) -> (end: &Idx)
    ensures
        !range@.exhausted ==> *end == range@.end,
;

} // verus!
