//! Words seen as rows of bits, and the ascending lists of positions that a row of bits marks.

use vstd::prelude::*;
use vstd::std_specs::bits::*;

verus! {

/// Bit `i` of a 64-bit word; bit 0 is the least significant one.
pub open spec fn bit(word: u64, i: int) -> bool {
    0 <= i < 64 && (word >> (i as u64)) & 1 == 1
}

/// Bit `i` of a 128-bit word.
pub open spec fn bit128(word: u128, i: int) -> bool {
    0 <= i < 128 && (word >> (i as u128)) & 1 == 1
}

/// The bits of `word` as a predicate on bit indices.
pub open spec fn bits_of(word: u64) -> spec_fn(int) -> bool {
    |i: int| bit(word, i)
}

/// The bits of a 128-bit `word` as a predicate on bit indices.
pub open spec fn bits128_of(word: u128) -> spec_fn(int) -> bool {
    |i: int| bit128(word, i)
}

/// The positions in `lo..hi` at which `p` holds, in ascending order.
pub open spec fn positions(p: spec_fn(int) -> bool, lo: int, hi: int) -> Seq<usize>
    decreases hi - lo,
{
    if lo >= hi {
        Seq::empty()
    } else if p(lo) {
        seq![lo as usize] + positions(p, lo + 1, hi)
    } else {
        positions(p, lo + 1, hi)
    }
}

/// The number of positions in `lo..hi` at which `p` holds.
pub open spec fn count(p: spec_fn(int) -> bool, lo: int, hi: int) -> nat {
    positions(p, lo, hi).len()
}

/// `u64::count_ones` returns the number of ones in the binary representation of its argument.
pub assume_specification[ u64::count_ones ](word: u64) -> (ones: u32)
    ensures
        ones == count(bits_of(word), 0, 64),
;

/// `u128::count_ones` returns the number of ones in the binary representation of its argument.
pub assume_specification[ u128::count_ones ](word: u128) -> (ones: u32)
    ensures
        ones == count(bits128_of(word), 0, 128),
;

/// `u128::trailing_zeros` returns the number of zeros below the lowest one, or 128 for zero.
pub assume_specification[ u128::trailing_zeros ](word: u128) -> (zeros: u32)
    ensures
        zeros <= 128,
        word == 0 <==> zeros == 128,
        zeros < 128 ==> bit128(word, zeros as int),
        forall|j: int| 0 <= j < zeros ==> !#[trigger] bit128(word, j),
        0 < zeros < 128 ==> word << ((128 - zeros) as u128) == 0,
;

// ---------------------------------------------------------------------------------------------
// Positions.

/// A list of positions over a range is the list over its first part followed by the list over
/// the rest.
pub proof fn lemma_positions_split(p: spec_fn(int) -> bool, lo: int, mid: int, hi: int)
    requires
        lo <= mid <= hi,
    ensures
        positions(p, lo, hi) == positions(p, lo, mid) + positions(p, mid, hi),
    decreases mid - lo,
{
    if lo < mid {
        lemma_positions_split(p, lo + 1, mid, hi);
        assert(positions(p, lo, hi) =~= positions(p, lo, mid) + positions(p, mid, hi));
    } else {
        assert(positions(p, lo, mid) =~= Seq::empty());
        assert(positions(p, lo, hi) =~= positions(p, lo, mid) + positions(p, mid, hi));
    }
}

/// Predicates that agree on a range mark the same positions of it.
pub proof fn lemma_positions_agree(
    p: spec_fn(int) -> bool,
    q: spec_fn(int) -> bool,
    lo: int,
    hi: int,
)
    requires
        forall|i: int| lo <= i < hi ==> #[trigger] p(i) == q(i),
    ensures
        positions(p, lo, hi) == positions(q, lo, hi),
    decreases hi - lo,
{
    if lo < hi {
        assert(p(lo) == q(lo));
        lemma_positions_agree(p, q, lo + 1, hi);
    }
}

/// Moving a predicate moves its positions, which keeps their number.
pub proof fn lemma_count_shift(
    p: spec_fn(int) -> bool,
    q: spec_fn(int) -> bool,
    by: int,
    lo: int,
    hi: int,
)
    requires
        forall|i: int| lo <= i < hi ==> #[trigger] q(i) == p(i + by),
    ensures
        count(q, lo, hi) == count(p, lo + by, hi + by),
    decreases hi - lo,
{
    if lo < hi {
        assert(q(lo) == p(lo + by));
        lemma_count_shift(p, q, by, lo + 1, hi);
    }
}

/// A predicate that holds nowhere in a range marks nothing.
pub proof fn lemma_positions_none(p: spec_fn(int) -> bool, lo: int, hi: int)
    requires
        forall|i: int| lo <= i < hi ==> !#[trigger] p(i),
    ensures
        positions(p, lo, hi) == Seq::<usize>::empty(),
    decreases hi - lo,
{
    if lo < hi {
        assert(!p(lo));
        lemma_positions_none(p, lo + 1, hi);
    }
}

/// The first marked position heads the list.
pub proof fn lemma_positions_first(p: spec_fn(int) -> bool, lo: int, at: int, hi: int)
    requires
        lo <= at < hi,
        p(at),
        forall|i: int| lo <= i < at ==> !#[trigger] p(i),
    ensures
        positions(p, lo, hi) == seq![at as usize] + positions(p, at + 1, hi),
        positions(p, lo, hi).len() > 0,
        positions(p, lo, hi)[0] == at as usize,
        positions(p, lo, hi).drop_first() == positions(p, at + 1, hi),
{
    lemma_positions_split(p, lo, at, hi);
    lemma_positions_none(p, lo, at);
    assert(positions(p, lo, hi) =~= seq![at as usize] + positions(p, at + 1, hi));
    assert(positions(p, lo, hi).drop_first() =~= positions(p, at + 1, hi));
}

/// A list of positions is ascending, and holds exactly the positions at which `p` holds.
pub proof fn lemma_positions_exact(p: spec_fn(int) -> bool, lo: int, hi: int)
    requires
        0 <= lo,
        hi <= usize::MAX + 1,
    ensures
        forall|i: int, j: int|
            0 <= i < j < positions(p, lo, hi).len() ==> #[trigger] positions(p, lo, hi)[i]
                < #[trigger] positions(p, lo, hi)[j],
        forall|k: int|
            0 <= k < positions(p, lo, hi).len() ==> lo <= #[trigger] positions(p, lo, hi)[k] < hi
                && p(positions(p, lo, hi)[k] as int),
        forall|at: usize|
            lo <= at < hi && p(at as int) ==> #[trigger] positions(p, lo, hi).contains(at),
        lo <= hi ==> positions(p, lo, hi).len() <= hi - lo,
    decreases hi - lo,
{
    if lo < hi {
        lemma_positions_exact(p, lo + 1, hi);
        let rest = positions(p, lo + 1, hi);
        let all = positions(p, lo, hi);
        if p(lo) {
            assert(all[0] == lo);
            assert forall|k: int| 1 <= k < all.len() implies #[trigger] all[k] == rest[k - 1] by {}
            assert forall|at: usize| lo <= at < hi && p(at as int) implies #[trigger] all.contains(
                at,
            ) by {
                if at != lo {
                    assert(rest.contains(at));
                    let k = rest.index_of(at);
                    assert(all[k + 1] == at);
                }
            }
        }
    }
}

/// Filtering by a predicate that every item meets changes nothing.
pub proof fn lemma_filter_keeps_all(items: Seq<usize>, keep: spec_fn(usize) -> bool)
    requires
        forall|k: int| 0 <= k < items.len() ==> keep(#[trigger] items[k]),
    ensures
        items.filter(keep) == items,
    decreases items.len(),
{
    reveal(Seq::filter);
    if items.len() > 0 {
        lemma_filter_keeps_all(items.drop_last(), keep);
        assert(keep(items.last()));
        assert(items.drop_last().push(items.last()) =~= items);
    } else {
        assert(items.filter(keep) =~= items);
    }
}

/// Filtering by a predicate that no item meets leaves nothing.
pub proof fn lemma_filter_drops_all(items: Seq<usize>, keep: spec_fn(usize) -> bool)
    requires
        forall|k: int| 0 <= k < items.len() ==> !keep(#[trigger] items[k]),
    ensures
        items.filter(keep) == Seq::<usize>::empty(),
    decreases items.len(),
{
    reveal(Seq::filter);
    if items.len() > 0 {
        lemma_filter_drops_all(items.drop_last(), keep);
        assert(!keep(items.last()));
    } else {
        assert(items.filter(keep) =~= Seq::empty());
    }
}

/// The offsets of a list that are at least `from`.
pub open spec fn from_offset(offsets: Seq<usize>, from: int) -> Seq<usize> {
    offsets.filter(|at: usize| at >= from)
}

/// Dropping the positions below `from` from a list leaves the list of those from `from` on.
pub proof fn lemma_positions_from(p: spec_fn(int) -> bool, lo: int, from: int, hi: int)
    requires
        0 <= lo <= from <= hi,
        hi <= usize::MAX + 1,
    ensures
        from_offset(positions(p, lo, hi), from) == positions(p, from, hi),
{
    let keep = |at: usize| at >= from;
    let below = positions(p, lo, from);
    let above = positions(p, from, hi);
    lemma_positions_split(p, lo, from, hi);
    lemma_positions_exact(p, lo, from);
    lemma_positions_exact(p, from, hi);
    lemma_filter_drops_all(below, keep);
    lemma_filter_keeps_all(above, keep);
    Seq::filter_distributes_over_add(below, above, keep);
    assert(Seq::<usize>::empty() + above =~= above);
}

// ---------------------------------------------------------------------------------------------
// Bits of 64-bit words.

/// The bits of the bitwise combinations of two words.
pub proof fn lemma_bit_ops(a: u64, b: u64)
    ensures
        forall|i: int| #[trigger] bit(a | b, i) == (bit(a, i) || bit(b, i)),
        forall|i: int| #[trigger] bit(a & b, i) == (bit(a, i) && bit(b, i)),
        forall|i: int| #[trigger] bit(a ^ b, i) == (bit(a, i) != bit(b, i)),
        forall|i: int| 0 <= i < 64 ==> #[trigger] bit(!a, i) == !bit(a, i),
{
    assert(forall|k: u64| #![auto]
        k < 64 ==> {
            &&& (((a | b) >> k) & 1 == 1 <==> (a >> k) & 1 == 1 || (b >> k) & 1 == 1)
            &&& (((a & b) >> k) & 1 == 1 <==> (a >> k) & 1 == 1 && (b >> k) & 1 == 1)
            &&& (((a ^ b) >> k) & 1 == 1 <==> ((a >> k) & 1 == 1) != ((b >> k) & 1 == 1))
            &&& (((!a) >> k) & 1 == 1 <==> !((a >> k) & 1 == 1))
        }) by (bit_vector);
}

/// Shifting right moves every bit down.
pub proof fn lemma_bit_shr(word: u64, by: u64)
    requires
        by < 64,
    ensures
        forall|i: int| 0 <= i ==> #[trigger] bit(word >> by, i) == bit(word, i + by),
{
    assert(forall|k: u64| #![auto]
        k < 64 ==> ((word >> by) >> k) & 1 == (if k + by < 64 {
            (word >> ((k + by) as u64)) & 1
        } else {
            0
        })) by (bit_vector)
        requires
            by < 64,
    ;
}

/// Shifting left moves every bit up.
pub proof fn lemma_bit_shl(word: u64, by: u64)
    requires
        by < 64,
    ensures
        forall|i: int| 0 <= i < 64 ==> #[trigger] bit(word << by, i) == bit(word, i - by),
{
    assert(forall|k: u64| #![auto]
        k < 64 ==> ((word << by) >> k) & 1 == (if by <= k {
            (word >> ((k - by) as u64)) & 1
        } else {
            0
        })) by (bit_vector)
        requires
            by < 64,
    ;
}

/// The bits of the extreme words: none of zero, all of the greatest word.
pub proof fn lemma_bit_constants()
    ensures
        forall|i: int| !#[trigger] bit(0u64, i),
        forall|i: int| 0 <= i < 64 ==> #[trigger] bit(u64::MAX, i),
{
    assert(forall|k: u64| #![auto] k < 64 ==> (0u64 >> k) & 1 == 0 && (u64::MAX >> k) & 1 == 1)
        by (bit_vector);
}

/// One has bit 0 and no other.
pub proof fn lemma_one()
    ensures
        forall|i: int| #[trigger] bit(1u64, i) == (i == 0),
{
    assert forall|i: int| #[trigger] bit(1u64, i) == (i == 0) by {
        if 0 <= i < 64 {
            let k = i as u64;
            assert((1u64 >> k) & 1 == 1 <==> k == 0) by (bit_vector)
                requires
                    k < 64,
            ;
        }
    }
}

/// The lowest one of a nonzero word, and what is left when it is cleared.
pub proof fn lemma_lowest_bit(word: u64)
    requires
        word != 0,
    ensures
        u64_trailing_zeros(word) < 64,
        bit(word, u64_trailing_zeros(word) as int),
        forall|i: int| 0 <= i < u64_trailing_zeros(word) ==> !#[trigger] bit(word, i),
        forall|i: int| #[trigger]
            bit(word & (word - 1) as u64, i) == (bit(word, i) && i != u64_trailing_zeros(word)),
{
    axiom_u64_trailing_zeros(word);
    let low = u64_trailing_zeros(word) as u64;
    assert forall|i: int| 0 <= i < low implies !#[trigger] bit(word, i) by {
        assert((word >> (i as u64)) & 1 == 0);
    }
    assert(forall|k: u64| #![auto]
        k < 64 ==> (((word & (word - 1) as u64) >> k) & 1 == 1 <==> (word >> k) & 1 == 1 && k
            != low)) by (bit_vector)
        requires
            low < 64,
            word != 0,
            (word >> low) & 1 == 1,
            word << ((64 - low) as u64) == 0,
    ;
}

/// The highest one of a nonzero word.
pub proof fn lemma_highest_bit(word: u64)
    requires
        word != 0,
    ensures
        u64_leading_zeros(word) < 64,
        bit(word, 63 - u64_leading_zeros(word)),
        forall|i: int| 63 - u64_leading_zeros(word) < i ==> !#[trigger] bit(word, i),
{
    axiom_u64_leading_zeros(word);
    let high = (63 - u64_leading_zeros(word)) as u64;
    assert((word >> high) & 1 != 0 ==> (word >> high) & 1 == 1) by (bit_vector);
    assert forall|i: int| high < i implies !#[trigger] bit(word, i) by {
        if i < 64 {
            assert((word >> (i as u64)) & 1 == 0);
        }
    }
}

/// The bits of `word` as a predicate on positions, bit 0 standing for position `base`.
pub open spec fn bits_at(word: u64, base: int) -> spec_fn(int) -> bool {
    |i: int| bit(word, i - base)
}

/// Clearing the lowest one of a word takes the head off its list of positions.
pub proof fn lemma_clear_lowest(word: u64, base: int)
    requires
        word != 0,
    ensures
        positions(bits_at(word, base), base, base + 64) == seq![
            (base + u64_trailing_zeros(word)) as usize,
        ] + positions(bits_at(word & (word - 1) as u64, base), base, base + 64),
{
    let p = bits_at(word, base);
    let q = bits_at(word & (word - 1) as u64, base);
    let at = base + u64_trailing_zeros(word);
    lemma_lowest_bit(word);
    lemma_positions_first(p, base, at, base + 64);
    lemma_positions_split(q, base, at + 1, base + 64);
    assert forall|i: int| base <= i < at + 1 implies !#[trigger] q(i) by {
        assert(bit(word & (word - 1) as u64, i - base) == (bit(word, i - base) && i != at));
    }
    lemma_positions_none(q, base, at + 1);
    assert forall|i: int| at + 1 <= i < base + 64 implies #[trigger] p(i) == q(i) by {
        assert(bit(word & (word - 1) as u64, i - base) == (bit(word, i - base) && i != at));
    }
    lemma_positions_agree(p, q, at + 1, base + 64);
    assert(Seq::<usize>::empty() + positions(q, at + 1, base + 64) =~= positions(
        q,
        at + 1,
        base + 64,
    ));
}

/// A word is zero exactly when it has no ones.
pub proof fn lemma_zero_bits(word: u64)
    ensures
        word == 0 <==> forall|i: int| !#[trigger] bit(word, i),
{
    if word == 0 {
        lemma_bit_constants();
    } else {
        lemma_lowest_bit(word);
    }
}

/// The bitwise or of two words is zero exactly when both are.
pub proof fn lemma_or_zero(a: u64, b: u64)
    by (bit_vector)
    ensures
        a | b == 0 <==> a == 0 && b == 0,
        0u64 & a == 0,
{
}

/// Words with the same bits are the same word.
pub proof fn lemma_same_bits(a: u64, b: u64)
    requires
        forall|i: int| 0 <= i < 64 ==> #[trigger] bit(a, i) == bit(b, i),
    ensures
        a == b,
{
    lemma_bit_ops(a, b);
    lemma_zero_bits(a ^ b);
    assert(a ^ b == 0 ==> a == b) by (bit_vector);
}

/// A predicate holds throughout a range exactly when it marks as many positions as the range has.
pub proof fn lemma_count_full(p: spec_fn(int) -> bool, lo: int, hi: int)
    requires
        lo <= hi,
    ensures
        count(p, lo, hi) <= hi - lo,
        count(p, lo, hi) == hi - lo <==> forall|i: int| lo <= i < hi ==> #[trigger] p(i),
    decreases hi - lo,
{
    if lo < hi {
        lemma_count_full(p, lo + 1, hi);
        if count(p, lo, hi) == hi - lo {
            assert forall|i: int| lo <= i < hi implies #[trigger] p(i) by {
                if i == lo {
                    assert(p(lo));
                }
            }
        }
    }
}

/// A range of one position is marked once or not at all.
pub proof fn lemma_count_one(p: spec_fn(int) -> bool, at: int)
    ensures
        count(p, at, at + 1) == if p(at) {
            1nat
        } else {
            0
        },
{
    assert(positions(p, at + 1, at + 1) =~= Seq::empty());
}

/// A predicate marks nothing exactly when it holds nowhere.
pub proof fn lemma_count_zero(p: spec_fn(int) -> bool, lo: int, hi: int)
    ensures
        count(p, lo, hi) == 0 <==> forall|i: int| lo <= i < hi ==> !#[trigger] p(i),
    decreases hi - lo,
{
    if lo < hi {
        lemma_count_zero(p, lo + 1, hi);
        if count(p, lo, hi) == 0 {
            assert forall|i: int| lo <= i < hi implies !#[trigger] p(i) by {
                if i == lo {
                    assert(!p(lo));
                }
            }
        }
    }
}

proof fn lemma_wide_bit(lo: u64, hi: u64, k: u128)
    by (bit_vector)
    requires
        k < 128,
    ensures
        ((lo as u128) >> k) & 1 == 1 <==> k < 64 && (lo >> (k as u64)) & 1 == 1,
        ((lo as u128 | (hi as u128) << 64u128) >> k) & 1 == 1 <==> if k < 64 {
            (lo >> (k as u64)) & 1 == 1
        } else {
            (hi >> ((k - 64) as u64)) & 1 == 1
        },
        (0u128 >> k) & 1 == 0,
{
}

/// The bits of a 128-bit word made of one 64-bit word or of two, and of zero.
pub proof fn lemma_wide_bits(lo: u64, hi: u64)
    ensures
        forall|i: int| #[trigger] bit128(lo as u128, i) == bit(lo, i),
        forall|i: int| #[trigger]
            bit128(lo as u128 | (hi as u128) << 64u128, i) == (bit(lo, i) || bit(hi, i - 64)),
        forall|i: int| !#[trigger] bit128(0u128, i),
{
    assert forall|i: int| #[trigger] bit128(lo as u128, i) == bit(lo, i) by {
        if 0 <= i < 128 {
            lemma_wide_bit(lo, hi, i as u128);
        }
    }
    assert forall|i: int| #[trigger]
        bit128(lo as u128 | (hi as u128) << 64u128, i) == (bit(lo, i) || bit(hi, i - 64)) by {
        if 0 <= i < 128 {
            lemma_wide_bit(lo, hi, i as u128);
        }
    }
    assert forall|i: int| !#[trigger] bit128(0u128, i) by {
        if 0 <= i < 128 {
            lemma_wide_bit(lo, hi, i as u128);
        }
    }
}

/// Clearing the lowest one of a 128-bit word changes that bit and no other.
pub proof fn lemma_wide_clear_lowest(word: u128, low: u128)
    requires
        low < 128,
        bit128(word, low as int),
        0 < low ==> word << ((128 - low) as u128) == 0,
    ensures
        word != 0,
        forall|i: int| #[trigger]
            bit128(word & (word - 1) as u128, i) == (bit128(word, i) && i != low),
{
    lemma_wide_bits(0, 0);
    assert forall|i: int| #[trigger] bit128(word & (word - 1) as u128, i) == (bit128(word, i) && i
        != low) by {
        if 0 <= i < 128 {
            let k = i as u128;
            assert(((word & (word - 1) as u128) >> k) & 1 == 1 <==> (word >> k) & 1 == 1 && k != low)
                by (bit_vector)
                requires
                    k < 128,
                    low < 128,
                    word != 0,
                    (word >> low) & 1 == 1,
                    low == 0 || word << ((128 - low) as u128) == 0,
            ;
        }
    }
}

/// Keeping the bits from `from` on keeps those and no others.
pub proof fn lemma_wide_keep_from(word: u128, from: u128)
    requires
        from < 128,
    ensures
        forall|i: int| #[trigger]
            bit128(word & (u128::MAX << from), i) == (bit128(word, i) && from <= i),
{
    assert forall|i: int| #[trigger] bit128(word & (u128::MAX << from), i) == (bit128(word, i)
        && from <= i) by {
        if 0 <= i < 128 {
            let k = i as u128;
            assert(((word & (u128::MAX << from)) >> k) & 1 == 1 <==> (word >> k) & 1 == 1 && from
                <= k) by (bit_vector)
                requires
                    k < 128,
                    from < 128,
            ;
        }
    }
}

/// Slides the two ends of a short window, packed next to each other in `packed`, to their places.
///
/// The lowest `staged_len` bits of `packed` stand for the front of a window of `len` bits and the
/// `staged_len` bits above them for its back. Where the ends overlap their bits are merged.
pub fn slide_ends(packed: u64, staged_len: usize, len: usize) -> (window: u64)
    requires
        0 < staged_len <= 8,
        staged_len <= len <= 2 * staged_len,
    ensures
        forall|k: int| #[trigger]
            bit(window, k) == ((0 <= k < staged_len && bit(packed, k)) || (len - staged_len <= k
                < len && bit(packed, k - (len - staged_len) + staged_len))),
{
    let keep_mask: u64 = !(u64::MAX << staged_len);
    let front: u64 = packed & keep_mask;
    let back: u64 = (packed >> staged_len) & keep_mask;
    proof {
        lemma_bit_constants();
        lemma_bit_shl(u64::MAX, staged_len as u64);
        lemma_bit_ops(u64::MAX << staged_len, 0);
        lemma_bit_ops(packed, keep_mask);
        lemma_bit_shr(packed, staged_len as u64);
        lemma_bit_ops(packed >> staged_len, keep_mask);
        lemma_bit_shl(back, (len - staged_len) as u64);
        lemma_bit_ops(front, back << (len - staged_len));
    }
    front | (back << (len - staged_len))
}

// ---------------------------------------------------------------------------------------------
// Bytes and the words they make up.

/// Lane `i` of a word: the byte at bits `8 * i .. 8 * i + 8`.
pub open spec fn lane(word: u64, i: int) -> u8 {
    ((word >> ((8 * i) as u64)) & 0xff) as u8
}

proof fn lemma_byte_masks_at(byte: u8, at: u8, k: u64)
    by (bit_vector)
    requires
        at < 8,
    ensures
        k < 8 ==> (((!byte) as u64 >> k) & 1 == 1 <==> !((byte as u64 >> k) & 1 == 1)),
        k < 8 ==> (((1u8 << at) as u64 >> k) & 1 == 1 <==> k == at),
        k < 8 ==> (((!(1u8 << at)) as u64 >> k) & 1 == 1 <==> k != at),
        k < 8 ==> (((u8::MAX << at) as u64 >> k) & 1 == 1 <==> at <= k),
        k < 8 ==> (((u8::MAX >> ((7 - at) as u8)) as u64 >> k) & 1 == 1 <==> k <= at),
        8 <= k < 64 ==> (byte as u64 >> k) & 1 == 0,
{
}

/// The bits of the byte masks that select one bit, or all bits on one side of one.
pub proof fn lemma_byte_masks(byte: u8, at: u8)
    requires
        at < 8,
    ensures
        forall|i: int| 0 <= i < 8 ==> #[trigger] bit((!byte) as u64, i) == !bit(byte as u64, i),
        forall|i: int| 0 <= i < 8 ==> #[trigger] bit((1u8 << at) as u64, i) == (i == at),
        forall|i: int| 0 <= i < 8 ==> #[trigger] bit((!(1u8 << at)) as u64, i) == (i != at),
        forall|i: int| 0 <= i < 8 ==> #[trigger] bit((u8::MAX << at) as u64, i) == (at <= i),
        forall|i: int| 0 <= i < 8 ==> #[trigger]
            bit((u8::MAX >> ((7 - at) as u8)) as u64, i) == (i <= at),
        forall|i: int| 8 <= i ==> !#[trigger] bit(byte as u64, i),
{
    assert forall|i: int| 0 <= i < 8 implies #[trigger] bit((!byte) as u64, i) == !bit(
        byte as u64,
        i,
    ) by {
        lemma_byte_masks_at(byte, at, i as u64);
    }
    assert forall|i: int| 0 <= i < 8 implies #[trigger] bit((1u8 << at) as u64, i) == (i == at) by {
        lemma_byte_masks_at(byte, at, i as u64);
    }
    assert forall|i: int| 0 <= i < 8 implies #[trigger] bit((!(1u8 << at)) as u64, i) == (i
        != at) by {
        lemma_byte_masks_at(byte, at, i as u64);
    }
    assert forall|i: int| 0 <= i < 8 implies #[trigger] bit((u8::MAX << at) as u64, i) == (at
        <= i) by {
        lemma_byte_masks_at(byte, at, i as u64);
    }
    assert forall|i: int| 0 <= i < 8 implies #[trigger] bit(
        (u8::MAX >> ((7 - at) as u8)) as u64,
        i,
    ) == (i <= at) by {
        lemma_byte_masks_at(byte, at, i as u64);
    }
    assert forall|i: int| 8 <= i implies !#[trigger] bit(byte as u64, i) by {
        if i < 64 {
            lemma_byte_masks_at(byte, at, i as u64);
        }
    }
}

/// A byte has bit `at` exactly when it has a bit in common with the byte that has only that one.
pub proof fn lemma_single_bit(byte: u8, at: u8)
    requires
        at < 8,
    ensures
        (1u8 << at) & byte != 0 <==> bit(byte as u64, at as int),
{
    assert((1u8 << at) & byte != 0 <==> (byte as u64 >> (at as u64)) & 1 == 1) by (bit_vector)
        requires
            at < 8,
    ;
}

/// Every bit of a word is a bit of one of its lanes.
pub proof fn lemma_lane_bits(word: u64)
    ensures
        forall|i: int| 0 <= i < 64 ==> #[trigger] bit(word, i) == bit(
            lane(word, i / 8) as u64,
            i % 8,
        ),
        forall|l: int, i: int|
            0 <= l < 8 && 0 <= i < 8 ==> #[trigger] bit(lane(word, l) as u64, i) == bit(
                word,
                8 * l + i,
            ),
{
    assert forall|l: int, i: int| 0 <= l < 8 && 0 <= i < 8 implies #[trigger] bit(
        lane(word, l) as u64,
        i,
    ) == bit(word, 8 * l + i) by {
        let (l, k) = (l as u64, i as u64);
        assert((((((word >> ((8 * l) as u64)) & 0xff) as u8) as u64) >> k) & 1 == (word >> ((8 * l
            + k) as u64)) & 1) by (bit_vector)
            requires
                l < 8,
                k < 8,
        ;
    }
    assert forall|i: int| 0 <= i < 64 implies #[trigger] bit(word, i) == bit(
        lane(word, i / 8) as u64,
        i % 8,
    ) by {
        assert(8 * (i / 8) + i % 8 == i);
        assert(bit(lane(word, i / 8) as u64, i % 8) == bit(word, 8 * (i / 8) + i % 8));
    }
}

/// Joins eight bytes into a word, the first byte lowest.
pub fn word_from_le_bytes(bytes: [u8; 8]) -> (word: u64)
    ensures
        forall|i: int| 0 <= i < 8 ==> #[trigger] lane(word, i) == bytes[i],
{
    let (b0, b1, b2, b3) = (bytes[0], bytes[1], bytes[2], bytes[3]);
    let (b4, b5, b6, b7) = (bytes[4], bytes[5], bytes[6], bytes[7]);
    let word: u64 = b0 as u64 | (b1 as u64) << 8 | (b2 as u64) << 16 | (b3 as u64) << 24 | (
    b4 as u64) << 32 | (b5 as u64) << 40 | (b6 as u64) << 48 | (b7 as u64) << 56;
    proof {
        assert({
            &&& ((word >> 0u64) & 0xff) as u8 == b0
            &&& ((word >> 8u64) & 0xff) as u8 == b1
            &&& ((word >> 16u64) & 0xff) as u8 == b2
            &&& ((word >> 24u64) & 0xff) as u8 == b3
            &&& ((word >> 32u64) & 0xff) as u8 == b4
            &&& ((word >> 40u64) & 0xff) as u8 == b5
            &&& ((word >> 48u64) & 0xff) as u8 == b6
            &&& ((word >> 56u64) & 0xff) as u8 == b7
        }) by (bit_vector)
            requires
                word == b0 as u64 | (b1 as u64) << 8 | (b2 as u64) << 16 | (b3 as u64) << 24 | (
                b4 as u64) << 32 | (b5 as u64) << 40 | (b6 as u64) << 48 | (b7 as u64) << 56,
        ;
        assert forall|i: int| 0 <= i < 8 implies #[trigger] lane(word, i) == bytes[i] by {
            assert(i == 0 || i == 1 || i == 2 || i == 3 || i == 4 || i == 5 || i == 6 || i == 7);
        }
    }
    word
}

} // verus!
