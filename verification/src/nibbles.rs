//! Sets of bytes taken apart into their low and high nibbles.

use crate::bits;
use crate::bitset;
use crate::bitset::ByteSet;
use vstd::prelude::*;
use vstd::std_specs::bits::*;

verus! {

/// The low nibble of a byte.
pub open spec fn low_nibble(byte: u8) -> int {
    byte as int % 16
}

/// The high nibble of a byte.
pub open spec fn high_nibble(byte: u8) -> int {
    byte as int / 16
}

/// The two nibbles of a byte as masking and shifting give them.
pub proof fn lemma_nibbles(byte: u8)
    ensures
        byte & 0x0F == low_nibble(byte),
        byte >> 4 == high_nibble(byte),
{
    assert(byte & 0x0F == byte % 16 && byte >> 4 == byte / 16) by (bit_vector);
}

/// Which nibble all members of a set have in common.
#[derive(Debug, Copy, Clone, PartialEq, Eq, Structural)]
pub enum FixedNibble {
    /// The low nibble.
    Low,
    /// The high nibble.
    High,
}

/// The members of a set that have a nibble in common, each in the slot of its other nibble.
///
/// A slot without a member holds a byte whose other nibble is not that of the slot.
#[derive(Debug, Copy, Clone)]
pub struct FixedNibbleTable {
    /// The common nibble.
    pub fixed_nibble: FixedNibble,
    /// The member for each value of the other nibble.
    pub table: [u8; 16],
}

impl View for FixedNibbleTable {
    type V = Set<u8>;

    /// The bytes that stand in the slot of their own nibble.
    open spec fn view(&self) -> Set<u8> {
        Set::new(|byte: u8| self.table@[slot(self.fixed_nibble, byte)] == byte)
    }
}

/// The slot of `byte`: the nibble that is not fixed.
pub open spec fn slot(fixed_nibble: FixedNibble, byte: u8) -> int {
    match fixed_nibble {
        FixedNibble::Low => high_nibble(byte),
        FixedNibble::High => low_nibble(byte),
    }
}

/// Eight groups of nibbles: bit `g` of an entry tells whether the nibble is in group `g`.
#[derive(Debug, Copy, Clone)]
pub struct NibbleLookup(pub [u8; 16]);

impl NibbleLookup {
    /// Puts `nibble` into group `bit`.
    pub fn set(&mut self, nibble: u8, bit: u8)
        requires
            nibble < 16,
            bit < 8,
        ensures
            final(self).0@ == old(self).0@.update(
                nibble as int,
                old(self).0@[nibble as int] | (1u8 << bit),
            ),
    {
        self.0[nibble as usize] = self.0[nibble as usize] | (1u8 << bit);
    }
}

impl Default for NibbleLookup {
    /// Groups without nibbles.
    fn default() -> (lookup: NibbleLookup)
        ensures
            forall|k: int| 0 <= k < 16 ==> #[trigger] lookup.0@[k] == 0,
    {
        NibbleLookup([0; 16])
    }
}

/// The bytes whose nibbles share a group.
pub open spec fn grouped(lo_lookup: NibbleLookup, hi_lookup: NibbleLookup) -> Set<u8> {
    Set::new(
        |byte: u8| lo_lookup.0@[low_nibble(byte)] & hi_lookup.0@[high_nibble(byte)] != 0,
    )
}

/// The bits of a mask.
pub open spec fn bit_set(mask: u16) -> Set<int> {
    Set::new(|i: int| 0 <= i < 16 && bits::bit(mask as u64, i))
}

/// The bits of each of several masks.
pub open spec fn bit_sets(masks: Seq<u16>) -> Seq<Set<int>> {
    Seq::new(masks.len(), |k: int| bit_set(masks[k]))
}

/// The distinct nonempty ones of `sets`, in the order in which they first appear.
pub open spec fn groups(sets: Seq<Set<int>>) -> Seq<Set<int>>
    decreases sets.len(),
{
    if sets.len() == 0 {
        Seq::empty()
    } else {
        let earlier = groups(sets.drop_last());
        if sets.last() == Set::<int>::empty() || earlier.contains(sets.last()) {
            earlier
        } else {
            earlier.push(sets.last())
        }
    }
}

proof fn lemma_small_mask(mask: u16, k: u64)
    by (bit_vector)
    ensures
        16 <= k < 64 ==> (mask as u64 >> k) & 1 == 0,
{
}

/// Masks with the same bits are the same mask, and only zero has none.
pub proof fn lemma_bit_set(a: u16, b: u16)
    ensures
        bit_set(a) == bit_set(b) <==> a == b,
        bit_set(a) == Set::<int>::empty() <==> a == 0,
{
    if bit_set(a) == bit_set(b) {
        assert forall|i: int| 0 <= i < 64 implies #[trigger] bits::bit(a as u64, i) == bits::bit(
            b as u64,
            i,
        ) by {
            if i < 16 {
                assert(bit_set(a).contains(i) == bit_set(b).contains(i));
            } else {
                lemma_small_mask(a, i as u64);
                lemma_small_mask(b, i as u64);
            }
        }
        bits::lemma_same_bits(a as u64, b as u64);
    }
    bits::lemma_zero_bits(a as u64);
    if bit_set(a) == Set::<int>::empty() {
        assert forall|i: int| !#[trigger] bits::bit(a as u64, i) by {
            if 0 <= i < 16 {
                assert(!bit_set(a).contains(i));
            } else if 16 <= i < 64 {
                lemma_small_mask(a, i as u64);
            }
        }
    }
    if a == 0 {
        assert(bit_set(a) =~= Set::<int>::empty());
    }
}

/// No group occurs twice, and none is empty.
pub proof fn lemma_groups_distinct(sets: Seq<Set<int>>)
    ensures
        groups(sets).no_duplicates(),
        forall|g: int|
            0 <= g < groups(sets).len() ==> #[trigger] groups(sets)[g] != Set::<int>::empty(),
        forall|k: int|
            0 <= k < sets.len() && sets[k] != Set::<int>::empty() ==> groups(sets).contains(
                #[trigger] sets[k],
            ),
        groups(sets).len() <= sets.len(),
    decreases sets.len(),
{
    if sets.len() > 0 {
        let earlier = groups(sets.drop_last());
        lemma_groups_distinct(sets.drop_last());
        assert forall|k: int|
            0 <= k < sets.len() && sets[k] != Set::<int>::empty() implies groups(sets).contains(
            #[trigger] sets[k],
        ) by {
            if k < sets.len() - 1 {
                assert(sets.drop_last()[k] == sets[k]);
                let g = earlier.index_of(sets[k]);
                assert(groups(sets)[g] == sets[k]);
            } else if !earlier.contains(sets.last()) {
                assert(groups(sets)[earlier.len() as int] == sets.last());
            }
        }
    }
}

/// More sets have no fewer groups.
pub proof fn lemma_groups_grow(sets: Seq<Set<int>>, n: int)
    requires
        0 <= n <= sets.len(),
    ensures
        groups(sets.take(n)).len() <= groups(sets).len(),
    decreases sets.len() - n,
{
    if n < sets.len() {
        lemma_groups_grow(sets, n + 1);
        assert(sets.take(n + 1).drop_last() =~= sets.take(n));
    } else {
        assert(sets.take(n) =~= sets);
    }
}

/// Whether `lookup` names the group of every set: its own bit for a set that has a group, nothing
/// for an empty one.
pub open spec fn names_groups(lookup: NibbleLookup, sets: Seq<Set<int>>) -> bool {
    forall|k: int|
        0 <= k < 16 ==> #[trigger] lookup.0@[k] == if k >= sets.len() || sets[k]
            == Set::<int>::empty() {
            0u8
        } else {
            1u8 << (groups(sets).index_of(sets[k]) as u8)
        }
}

/// Whether the entries of `lookup` tell for every nibble which groups it belongs to.
pub open spec fn lists_groups(lookup: NibbleLookup, sets: Seq<Set<int>>) -> bool {
    forall|m: int, g: int|
        0 <= m < 16 && 0 <= g < 8 ==> #[trigger] bits::bit(lookup.0@[m] as u64, g) == (g < groups(
            sets,
        ).len() && groups(sets)[g].contains(m))
}

proof fn lemma_empty_or(bit: u8)
    by (bit_vector)
    ensures
        0u8 | bit == bit,
        0u8 & bit == 0,
{
}

/// Adding a nibble to a group sets that group's bit of the nibble's entry.
pub proof fn lemma_set_group(before: NibbleLookup, after: NibbleLookup, nibble: u8, bit: u8)
    requires
        nibble < 16,
        bit < 8,
        after.0@ == before.0@.update(nibble as int, before.0@[nibble as int] | (1u8 << bit)),
    ensures
        forall|m: int, g: int|
            0 <= m < 16 && 0 <= g < 8 ==> #[trigger] bits::bit(after.0@[m] as u64, g) == (bits::bit(
                before.0@[m] as u64,
                g,
            ) || (m == nibble && g == bit)),
{
    let entry = before.0@[nibble as int];
    bits::lemma_bit_ops(entry as u64, (1u8 << bit) as u64);
    bits::lemma_byte_masks(entry, bit);
    assert((entry | (1u8 << bit)) as u64 == entry as u64 | (1u8 << bit) as u64);
}

/// Encodes at most eight distinct nonempty masks as two intersecting nibble lookups.
///
/// Returns `(key_lookup, member_lookup)` such that their entries share a bit exactly
/// when `member_masks[key_nibble]` contains `member`. Each distinct mask gets a unique bit, stored
/// at every key with that mask and at every member it contains. A key gets only its
/// own mask's bit; a member can carry bits from several masks. Empty masks get no
/// bit, and a ninth distinct nonempty mask returns `None`.
///
/// For rows, keys are high nibbles and members are low nibbles. For columns, these
/// roles reverse. Sharing a bit only between identical masks prevents a key from
/// accepting members that belong exclusively to another mask.
pub fn group_nibbles_by_mask(member_masks: &[u16; 16]) -> (lookups: Option<
    (NibbleLookup, NibbleLookup),
>)
    ensures
        lookups is None <==> groups(bit_sets(member_masks@)).len() > 8,
        lookups matches Some((key_lookup, member_lookup)) ==> {
            &&& names_groups(key_lookup, bit_sets(member_masks@))
            &&& lists_groups(member_lookup, bit_sets(member_masks@))
            &&& forall|k: int, m: int|
                0 <= k < 16 && 0 <= m < 16 ==> ((#[trigger] key_lookup.0@[k]
                    & #[trigger] member_lookup.0@[m] != 0) <==> bits::bit(
                    member_masks@[k] as u64,
                    m,
                ))
        },
{
    let ghost sets = bit_sets(member_masks@);
    let mut key_lookup = NibbleLookup::default();
    let mut member_lookup = NibbleLookup::default();
    let mut group_masks: [u16; 8] = [0; 8];
    let mut group_count: usize = 0;
    let mut key_nibble: usize = 0;
    proof {
        bits::lemma_bit_constants();
    }
    while key_nibble < 16
        invariant
            key_nibble <= 16,
            sets == bit_sets(member_masks@),
            group_count <= 8,
            group_count == groups(sets.take(key_nibble as int)).len(),
            forall|g: int|
                0 <= g < group_count ==> bit_set(#[trigger] group_masks@[g]) == groups(
                    sets.take(key_nibble as int),
                )[g],
            names_groups(key_lookup, sets.take(key_nibble as int)),
            lists_groups(member_lookup, sets.take(key_nibble as int)),
        decreases 16 - key_nibble,
    {
        let member_mask: u16 = member_masks[key_nibble];
        let ghost seen = sets.take(key_nibble as int);
        let ghost now = sets.take(key_nibble + 1);
        proof {
            assert(now.drop_last() =~= seen);
            assert(now.last() == bit_set(member_mask));
            lemma_bit_set(member_mask, 0);
            lemma_groups_distinct(seen);
            lemma_groups_distinct(now);
        }
        if member_mask != 0 {
            let mut group_index: usize = 0;
            while group_index < group_count && group_masks[group_index] != member_mask
                invariant
                    group_index <= group_count <= 8,
                    forall|g: int|
                        0 <= g < group_index ==> #[trigger] group_masks@[g] != member_mask,
                decreases group_count - group_index,
            {
                group_index += 1;
            }
            proof {
                assert forall|g: int| 0 <= g < group_index implies groups(seen)[g] != bit_set(
                    member_mask,
                ) by {
                    lemma_bit_set(group_masks@[g], member_mask);
                }
            }
            if group_index == group_count {
                proof {
                    assert(!groups(seen).contains(bit_set(member_mask)));
                    assert(groups(now) == groups(seen).push(bit_set(member_mask)));
                }
                if group_count == 8 {
                    proof {
                        lemma_groups_grow(sets, key_nibble + 1);
                    }
                    return None;
                }
                group_masks[group_count] = member_mask;
                group_count += 1;
                let mut remaining: u64 = member_mask as u64;
                proof {
                    assert forall|i: int| #[trigger] bits::bit(remaining, i) implies i < 16 by {
                        lemma_small_mask(member_mask, i as u64);
                    }
                }
                while remaining != 0
                    invariant
                        group_index < 8,
                        group_index == groups(seen).len(),
                        groups(now) == groups(seen).push(bit_set(member_mask)),
                        forall|i: int| #[trigger]
                            bits::bit(remaining, i) ==> i < 16 && bits::bit(member_mask as u64, i),
                        forall|m: int, g: int|
                            0 <= m < 16 && 0 <= g < 8 ==> #[trigger] bits::bit(
                                member_lookup.0@[m] as u64,
                                g,
                            ) == (g < groups(now).len() && groups(now)[g].contains(m) && !(g
                                == group_index && bits::bit(remaining, m))),
                    decreases bits::positions(bits::bits_at(remaining, 0), 0, 64).len(),
                {
                    proof {
                        bits::lemma_lowest_bit(remaining);
                        bits::lemma_clear_lowest(remaining, 0);
                        assert(bits::bit(remaining, u64_trailing_zeros(remaining) as int));
                    }
                    let member: u8 = remaining.trailing_zeros() as u8;
                    let ghost before = member_lookup;
                    member_lookup.set(member, group_index as u8);
                    proof {
                        lemma_set_group(before, member_lookup, member, group_index as u8);
                        assert(bit_set(member_mask).contains(member as int));
                    }
                    remaining = remaining & (remaining - 1);
                }
                proof {
                    bits::lemma_bit_constants();
                }
            } else {
                proof {
                    lemma_bit_set(group_masks@[group_index as int], member_mask);
                    assert(groups(seen)[group_index as int] == bit_set(member_mask));
                    assert(groups(now) == groups(seen));
                }
            }
            let ghost before = key_lookup;
            key_lookup.set(key_nibble as u8, group_index as u8);
            proof {
                lemma_empty_or(1u8 << (group_index as u8));
                assert(groups(now)[group_index as int] == now[key_nibble as int]);
                assert forall|k: int| 0 <= k < 16 implies #[trigger] key_lookup.0@[k] == if k
                    >= now.len() || now[k] == Set::<int>::empty() {
                    0u8
                } else {
                    1u8 << (groups(now).index_of(now[k]) as u8)
                } by {
                    if k < key_nibble && now[k] != Set::<int>::empty() {
                        assert(seen[k] == now[k]);
                        assert(groups(seen).contains(seen[k]));
                        let g = groups(seen).index_of(seen[k]);
                        assert(groups(now)[g] == now[k]);
                        assert(groups(now).contains(now[k]));
                    }
                }
            }
        } else {
            proof {
                assert(groups(now) == groups(seen));
                assert forall|k: int| 0 <= k < 16 implies #[trigger] key_lookup.0@[k] == if k
                    >= now.len() || now[k] == Set::<int>::empty() {
                    0u8
                } else {
                    1u8 << (groups(now).index_of(now[k]) as u8)
                } by {
                    if k < key_nibble {
                        assert(seen[k] == now[k]);
                    }
                }
            }
        }
        key_nibble += 1;
    }
    proof {
        assert(sets.take(16) =~= sets);
        lemma_groups_distinct(sets);
        assert forall|k: int, m: int| 0 <= k < 16 && 0 <= m < 16 implies ((
        #[trigger] key_lookup.0@[k] & #[trigger] member_lookup.0@[m] != 0) <==> bits::bit(
            member_masks@[k] as u64,
            m,
        )) by {
            lemma_bit_set(member_masks@[k], 0);
            assert(sets[k] == bit_set(member_masks@[k]));
            if member_masks@[k] == 0 {
                lemma_empty_or(member_lookup.0@[m]);
                assert(!bit_set(member_masks@[k]).contains(m));
            } else {
                assert(groups(sets).contains(sets[k]));
                let g = groups(sets).index_of(sets[k]);
                bits::lemma_single_bit(member_lookup.0@[m], g as u8);
                assert(bits::bit(member_lookup.0@[m] as u64, g) == groups(sets)[g].contains(m));
                assert(bit_set(member_masks@[k]).contains(m) == bits::bit(
                    member_masks@[k] as u64,
                    m,
                ));
            }
        }
    }
    Some((key_lookup, member_lookup))
}

/// The low nibbles of the members of `set`, for each high nibble.
pub open spec fn rows_of(set: Set<u8>) -> Seq<Set<int>> {
    Seq::new(
        16,
        |hi: int| Set::new(|lo: int| 0 <= lo < 16 && set.contains((16 * hi + lo) as u8)),
    )
}

/// The high nibbles of the members of `set`, for each low nibble.
pub open spec fn columns_of(set: Set<u8>) -> Seq<Set<int>> {
    Seq::new(
        16,
        |lo: int| Set::new(|hi: int| 0 <= hi < 16 && set.contains((16 * hi + lo) as u8)),
    )
}

proof fn lemma_add_column_bit(column: u16, hi: u64, k: u64)
    by (bit_vector)
    requires
        hi < 16,
        k < 16,
    ensures
        ((column | (1u16 << hi)) as u64 >> k) & 1 == 1 <==> (k == hi || (column as u64 >> k) & 1
            == 1),
{
}

/// Turns the rows of a bit matrix into its columns.
fn transpose(rows: &[u16; 16]) -> (columns: [u16; 16])
    ensures
        forall|lo: int, hi: int|
            0 <= lo < 16 && 0 <= hi < 16 ==> #[trigger] bits::bit(columns@[lo] as u64, hi)
                == bits::bit(rows@[hi] as u64, lo),
{
    let mut columns: [u16; 16] = [0; 16];
    proof {
        bits::lemma_bit_constants();
    }
    let mut hi: usize = 0;
    while hi < 16
        invariant
            hi <= 16,
            forall|lo: int, h: int|
                0 <= lo < 16 && 0 <= h < 16 ==> #[trigger] bits::bit(columns@[lo] as u64, h) == (h
                    < hi && bits::bit(rows@[h] as u64, lo)),
        decreases 16 - hi,
    {
        let mut row: u64 = rows[hi] as u64;
        proof {
            assert forall|i: int| #[trigger] bits::bit(row, i) implies i < 16 by {
                lemma_small_mask(rows@[hi as int], i as u64);
            }
        }
        while row != 0
            invariant
                hi < 16,
                forall|i: int| #[trigger]
                    bits::bit(row, i) ==> i < 16 && bits::bit(rows@[hi as int] as u64, i),
                forall|lo: int, h: int|
                    0 <= lo < 16 && 0 <= h < 16 ==> #[trigger] bits::bit(columns@[lo] as u64, h)
                        == (h <= hi && bits::bit(rows@[h] as u64, lo) && !(h == hi && bits::bit(
                        row,
                        lo,
                    ))),
            decreases bits::positions(bits::bits_at(row, 0), 0, 64).len(),
        {
            proof {
                bits::lemma_lowest_bit(row);
                bits::lemma_clear_lowest(row, 0);
                assert(bits::bit(row, u64_trailing_zeros(row) as int));
            }
            let lo: usize = row.trailing_zeros() as usize;
            let ghost before = columns@;
            columns[lo] = columns[lo] | (1u16 << hi);
            proof {
                assert forall|l: int, h: int| 0 <= l < 16 && 0 <= h < 16 implies #[trigger] bits::bit(
                    columns@[l] as u64,
                    h,
                ) == (bits::bit(before[l] as u64, h) || (l == lo && h == hi)) by {
                    lemma_add_column_bit(before[l], hi as u64, h as u64);
                }
            }
            row = row & (row - 1);
        }
        proof {
            bits::lemma_bit_constants();
        }
        hi += 1;
    }
    columns
}

/// Builds exact membership lookups for [`crate::vector::kernels::SmallSet`], in low/high order.
///
/// The kernel accepts a byte when `lo_lookup[byte & 0x0F] & hi_lookup[byte >> 4] != 0`.
/// Each lookup entry is a `u8`, so there are eight bits available to identify groups of
/// bytes. A bit matches every combination of the high and low nibbles carrying it:
/// a rectangle in the 16-by-16 nibble matrix. For example, one bit can represent all
/// four bytes `{0x12, 0x13, 0xA2, 0xA3}` by marking high nibbles `{1, A}` and low
/// nibbles `{2, 3}`. The limit is eight groups, not eight bytes.
///
/// First, give each distinct nonempty row mask its own bit. High nibbles with the
/// same row mask share that bit, and every low nibble in the mask carries it too.
/// Because the rows are identical, every combination matched by the bit belongs
/// to the set. If this needs more than eight bits, transpose the matrix and group
/// identical columns instead, then return the lookups in the same low/high order.
///
/// This is a heuristic, not a search for a minimum rectangle cover. If both passes
/// need more than eight bits, return `None` so the caller uses a bitset lookup;
/// a different choice of overlapping rectangles might still fit in eight bits.
pub fn extract_nibble_lookups(byte_set: &ByteSet) -> (lookups: Option<(NibbleLookup, NibbleLookup)>)
    ensures
        lookups is None <==> groups(rows_of(byte_set@)).len() > 8 && groups(
            columns_of(byte_set@),
        ).len() > 8,
        lookups matches Some((lo_lookup, hi_lookup)) ==> {
            &&& grouped(lo_lookup, hi_lookup) == byte_set@
            &&& if groups(rows_of(byte_set@)).len() <= 8 {
                names_groups(hi_lookup, rows_of(byte_set@)) && lists_groups(
                    lo_lookup,
                    rows_of(byte_set@),
                )
            } else {
                names_groups(lo_lookup, columns_of(byte_set@)) && lists_groups(
                    hi_lookup,
                    columns_of(byte_set@),
                )
            }
        },
{
    let rows = byte_set.nibble_rows();
    proof {
        let sets = bit_sets(rows@);
        assert forall|hi: int| 0 <= hi < 16 implies #[trigger] sets[hi] == rows_of(
            byte_set@,
        )[hi] by {
            assert(sets[hi] =~= rows_of(byte_set@)[hi]);
        }
        assert(sets =~= rows_of(byte_set@));
    }
    if let Some((hi_lookup, lo_lookup)) = group_nibbles_by_mask(&rows) {
        proof {
            assert forall|byte: u8| grouped(lo_lookup, hi_lookup).contains(byte)
                == byte_set@.contains(byte) by {
                let (hi, lo) = (high_nibble(byte), low_nibble(byte));
                assert((16 * hi + lo) as u8 == byte);
                assert(bits::bit(rows@[hi] as u64, lo) == byte_set@.contains(byte));
                let (a, b) = (lo_lookup.0@[lo], hi_lookup.0@[hi]);
                assert(a & b == b & a) by (bit_vector);
            }
            assert(grouped(lo_lookup, hi_lookup) =~= byte_set@);
        }
        return Some((lo_lookup, hi_lookup));
    }
    let columns = transpose(&rows);
    proof {
        let sets = bit_sets(columns@);
        assert forall|lo: int| 0 <= lo < 16 implies #[trigger] sets[lo] == columns_of(
            byte_set@,
        )[lo] by {
            assert forall|hi: int| sets[lo].contains(hi) == columns_of(byte_set@)[lo].contains(
                hi,
            ) by {
                if 0 <= hi < 16 {
                    assert(bits::bit(columns@[lo] as u64, hi) == bits::bit(rows@[hi] as u64, lo));
                }
            }
            assert(sets[lo] =~= columns_of(byte_set@)[lo]);
        }
        assert(sets =~= columns_of(byte_set@));
    }
    let lookups = group_nibbles_by_mask(&columns);
    proof {
        if let Some((lo_lookup, hi_lookup)) = lookups {
            assert forall|byte: u8| grouped(lo_lookup, hi_lookup).contains(byte)
                == byte_set@.contains(byte) by {
                let (hi, lo) = (high_nibble(byte), low_nibble(byte));
                assert((16 * hi + lo) as u8 == byte);
                assert(bits::bit(rows@[hi] as u64, lo) == byte_set@.contains(byte));
                assert(bits::bit(columns@[lo] as u64, hi) == bits::bit(rows@[hi] as u64, lo));
            }
            assert(grouped(lo_lookup, hi_lookup) =~= byte_set@);
        }
    }
    lookups
}

/// The nibble of `byte` that is fixed.
pub open spec fn fixed_value(fixed_nibble: FixedNibble, byte: u8) -> int {
    match fixed_nibble {
        FixedNibble::Low => low_nibble(byte),
        FixedNibble::High => high_nibble(byte),
    }
}

/// Whether all `items` have the nibble in common.
pub open spec fn shares_nibble(fixed_nibble: FixedNibble, items: Seq<u8>) -> bool {
    forall|i: int|
        0 <= i < items.len() ==> fixed_value(fixed_nibble, #[trigger] items[i]) == fixed_value(
            fixed_nibble,
            items[0],
        )
}

/// The byte that a slot without a member holds.
pub open spec fn vacant(fixed_nibble: FixedNibble, n: int) -> u8 {
    if n != 0 {
        0
    } else {
        match fixed_nibble {
            FixedNibble::Low => 0x10,
            FixedNibble::High => 0x01,
        }
    }
}

/// Puts every item into the slot of its variable nibble.
///
/// An empty slot must contain a byte whose variable nibble differs from its index.
/// Zero works except at index zero, which uses the opposite one-bit nibble.
fn fill_fixed_nibble_table(fixed_nibble: FixedNibble, items: &[u8]) -> (table: FixedNibbleTable)
    requires
        shares_nibble(fixed_nibble, items@),
    ensures
        table.fixed_nibble == fixed_nibble,
        table@ == items@.to_set(),
        forall|n: int|
            0 <= n < 16 ==> (exists|j: int|
                0 <= j < items@.len() && slot(fixed_nibble, #[trigger] items@[j]) == n)
                || #[trigger] table.table@[n] == vacant(fixed_nibble, n),
{
    let mut table: [u8; 16] = [0; 16];
    table[0] = match fixed_nibble {
        FixedNibble::Low => 0x10,
        FixedNibble::High => 0x01,
    };
    let len: usize = items.len();
    let mut i: usize = 0;
    while i < len
        invariant
            i <= len == items@.len(),
            shares_nibble(fixed_nibble, items@),
            forall|j: int|
                0 <= j < i ==> table@[slot(fixed_nibble, items@[j])] == #[trigger] items@[j],
            forall|n: int|
                0 <= n < 16 ==> (exists|j: int|
                    0 <= j < i && slot(fixed_nibble, #[trigger] items@[j]) == n && table@[n]
                        == items@[j]) || #[trigger] table@[n] == vacant(fixed_nibble, n),
        decreases len - i,
    {
        let item: u8 = items[i];
        proof {
            lemma_nibbles(item);
        }
        let n: usize = match fixed_nibble {
            FixedNibble::Low => (item >> 4) as usize,
            FixedNibble::High => (item & 0x0F) as usize,
        };
        let ghost before = table@;
        table[n] = item;
        proof {
            assert forall|j: int| 0 <= j < i + 1 implies table@[slot(fixed_nibble, items@[j])]
                == #[trigger] items@[j] by {
                if slot(fixed_nibble, items@[j]) == n {
                    assert(fixed_value(fixed_nibble, items@[j]) == fixed_value(
                        fixed_nibble,
                        items@[i as int],
                    ));
                    assert(items@[j] == item);
                }
            }
            assert forall|m: int| 0 <= m < 16 implies (exists|j: int|
                0 <= j < i + 1 && slot(fixed_nibble, #[trigger] items@[j]) == m && table@[m]
                    == items@[j]) || #[trigger] table@[m] == vacant(fixed_nibble, m) by {
                if m == n {
                    assert(slot(fixed_nibble, items@[i as int]) == m && table@[m]
                        == items@[i as int]);
                } else {
                    assert(table@[m] == before[m]);
                }
            }
        }
        i += 1;
    }
    let filled = FixedNibbleTable { fixed_nibble, table };
    proof {
        assert forall|byte: u8| filled@.contains(byte) == items@.to_set().contains(byte) by {
            if items@.contains(byte) {
                let j = items@.index_of(byte);
                assert(table@[slot(fixed_nibble, items@[j])] == items@[j]);
            }
            if filled@.contains(byte) {
                let n = slot(fixed_nibble, byte);
                assert(table@[n] == byte);
                assert(vacant(fixed_nibble, n) != byte);
                let j = choose|j: int|
                    0 <= j < len && slot(fixed_nibble, #[trigger] items@[j]) == n && table@[n]
                        == items@[j];
                assert(items@[j] == byte);
            }
        }
        assert(filled@ =~= items@.to_set());
    }
    filled
}

/// Builds the table of items that have a nibble in common.
///
/// Returns `None` when there are no items, or when neither nibble is the same in all of them.
pub fn extract_fixed_nibble_table(items: &[u8]) -> (table: Option<FixedNibbleTable>)
    ensures
        table is None <==> items@.len() == 0 || (!shares_nibble(FixedNibble::Low, items@)
            && !shares_nibble(FixedNibble::High, items@)),
        table matches Some(table) ==> {
            &&& table@ == items@.to_set()
            &&& table.fixed_nibble == if shares_nibble(FixedNibble::Low, items@) {
                FixedNibble::Low
            } else {
                FixedNibble::High
            }
            &&& forall|n: int|
                0 <= n < 16 ==> (exists|j: int|
                    0 <= j < items@.len() && slot(table.fixed_nibble, #[trigger] items@[j]) == n)
                    || #[trigger] table.table@[n] == vacant(table.fixed_nibble, n)
        },
{
    let len: usize = items.len();
    if len == 0 {
        return None;
    }
    let first: u8 = items[0];
    let (lo_nibble, hi_nibble) = (first & 0x0F, first >> 4);
    let (mut lo_constant, mut hi_constant): (bool, bool) = (true, true);
    let mut i: usize = 0;
    proof {
        lemma_nibbles(first);
        assert(items@.take(0) =~= Seq::<u8>::empty());
    }
    while i < len
        invariant
            i <= len == items@.len(),
            0 < len,
            lo_nibble == low_nibble(items@[0]),
            hi_nibble == high_nibble(items@[0]),
            lo_constant == forall|j: int|
                0 <= j < i ==> low_nibble(#[trigger] items@[j]) == low_nibble(items@[0]),
            hi_constant == forall|j: int|
                0 <= j < i ==> high_nibble(#[trigger] items@[j]) == high_nibble(items@[0]),
        decreases len - i,
    {
        let item: u8 = items[i];
        proof {
            lemma_nibbles(item);
        }
        lo_constant = lo_constant && item & 0x0F == lo_nibble;
        hi_constant = hi_constant && item >> 4 == hi_nibble;
        i += 1;
    }
    proof {
        assert(lo_constant == shares_nibble(FixedNibble::Low, items@));
        assert(hi_constant == shares_nibble(FixedNibble::High, items@));
    }
    if lo_constant {
        Some(fill_fixed_nibble_table(FixedNibble::Low, items))
    } else if hi_constant {
        Some(fill_fixed_nibble_table(FixedNibble::High, items))
    } else {
        None
    }
}

/// Whether the nibbles of the members of `set` fit in eight groups, by rows or by columns.
pub open spec fn fits_nibble_groups(set: Set<u8>) -> bool {
    groups(rows_of(set)).len() <= 8 || groups(
        columns_of(set),
    ).len() <= 8
}

/// Whether all members of `set` have a nibble in common.
pub open spec fn shares_a_nibble(set: Set<u8>) -> bool {
    shares_nibble(FixedNibble::Low, bitset::members_of(set)) || shares_nibble(
        FixedNibble::High,
        bitset::members_of(set),
    )
}

/// Whether items have a nibble in common does not depend on their order.
pub proof fn lemma_shares_same(a: Seq<u8>, b: Seq<u8>)
    requires
        a.len() > 0,
        a.to_set() == b.to_set(),
    ensures
        forall|fixed_nibble: FixedNibble| #[trigger]
            shares_nibble(fixed_nibble, a) == shares_nibble(fixed_nibble, b),
{
    assert(a.to_set().contains(a[0]));
    assert(b.contains(a[0]));
    assert forall|fixed_nibble: FixedNibble| #[trigger]
        shares_nibble(fixed_nibble, a) == shares_nibble(fixed_nibble, b) by {
        lemma_shares_part(fixed_nibble, a, b);
        lemma_shares_part(fixed_nibble, b, a);
    }
}

proof fn lemma_shares_part(fixed_nibble: FixedNibble, a: Seq<u8>, b: Seq<u8>)
    requires
        a.len() > 0,
        b.len() > 0,
        a.to_set() == b.to_set(),
    ensures
        shares_nibble(fixed_nibble, a) ==> shares_nibble(fixed_nibble, b),
{
    if shares_nibble(fixed_nibble, a) {
        assert forall|i: int| 0 <= i < b.len() implies fixed_value(fixed_nibble, #[trigger] b[i])
            == fixed_value(fixed_nibble, a[0]) by {
            assert(b.to_set().contains(b[i]));
            let k = a.index_of(b[i]);
            assert(a[k] == b[i]);
        }
    }
}

} // verus!
