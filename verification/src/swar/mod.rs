//! Searches eight bytes at a time, with the bytes held in the lanes of one word.

pub mod kernels;

use crate::bits;
use crate::search;
use crate::search::{IterState, MatchedBitset};
use vstd::prelude::*;
use vstd::slice::*;
use vstd::std_specs::bits::*;

verus! {

/// The number of bytes that a word holds.
pub const WORD_BYTES: usize = 8;

/// Bit 7 of every lane.
pub const HIGH: u64 = 0x8080_8080_8080_8080;

/// Bit 0 of every lane.
pub const LOW: u64 = 0x0101_0101_0101_0101;

proof fn lemma_splat_lane(byte: u8, i: u64)
    by (bit_vector)
    requires
        i < 8,
    ensures
        ((((byte as u64 * 0x0101_0101_0101_0101u64) as u64) >> ((8 * i) as u64)) & 0xff) as u8
            == byte,
{
}

/// Repeats `byte` in every lane.
pub fn splat(byte: u8) -> (word: u64)
    ensures
        word == byte * LOW,
        forall|i: int| 0 <= i < 8 ==> #[trigger] bits::lane(word, i) == byte,
{
    let word: u64 = byte as u64 * LOW;
    proof {
        assert forall|i: int| 0 <= i < 8 implies #[trigger] bits::lane(word, i) == byte by {
            lemma_splat_lane(byte, i as u64);
        }
    }
    word
}

proof fn lemma_nonzero_bytes(word: u64, i: u64)
    by (bit_vector)
    requires
        i < 8,
    ensures
        (word & !0x8080_8080_8080_8080u64) + !0x8080_8080_8080_8080u64 <= u64::MAX,
        ((((((word & !0x8080_8080_8080_8080u64) + !0x8080_8080_8080_8080u64) as u64) | word) >> ((8
            * i + 7) as u64)) & 1 == 1) <==> ((word >> ((8 * i) as u64)) & 0xff) as u8 != 0,
{
}

/// Sets bit 7 of every nonzero byte.
///
/// `(b & 0x7f) + 0x7f` carries into bit 7 exactly when the low seven bits are non-zero
/// and cannot carry out of the byte, so OR-ing `b` back in covers `0x80` as well.
pub fn nonzero_bytes(word: u64) -> (marks: u64)
    ensures
        forall|i: int| 0 <= i < 8 ==> #[trigger] bits::bit(marks, 8 * i + 7) == (bits::lane(word, i)
            != 0),
{
    proof {
        lemma_nonzero_bytes(word, 0);
    }
    let marks: u64 = ((word & !HIGH) + !HIGH) | word;
    proof {
        assert forall|i: int| 0 <= i < 8 implies #[trigger] bits::bit(marks, 8 * i + 7) == (
        bits::lane(word, i) != 0) by {
            lemma_nonzero_bytes(word, i as u64);
        }
    }
    marks
}

proof fn lemma_movemask(marks: u64, i: u64)
    by (bit_vector)
    requires
        marks & !0x8080_8080_8080_8080u64 == 0,
    ensures
        i < 8 ==> ((((marks * 0x0002_0408_1020_4081u64) as u64) >> 56u64) >> i) & 1 == (marks >> ((8
            * i + 7) as u64)) & 1,
        8 <= i < 64 ==> ((((marks * 0x0002_0408_1020_4081u64) as u64) >> 56u64) >> i) & 1 == 0,
        (marks * 0x0002_0408_1020_4081u64) as u64 == (marks * 0x0002_0408_1020_4081u64)
            % 0x1_0000_0000_0000_0000,
{
}

/// The factor that moves bit `8i + 7` of a word to bit `56 + i`.
pub const GATHER: u64 = 0x0002_0408_1020_4081;

/// Gathers bit 7 of each byte into the low byte.
///
/// The multiplier maps bit `8i + 7` to bit `56 + i`; other products fall outside the result, as
/// long as there are no other bits.
pub fn movemask(marks: u64) -> (mask: u64)
    ensures
        mask == (((marks * GATHER) % 0x1_0000_0000_0000_0000) as u64) >> 56u64,
        marks & !HIGH == 0 ==> forall|i: int| #[trigger]
            bits::bit(mask, i) == (0 <= i < 8 && bits::bit(marks, 8 * i + 7)),
{
    let mask: u64 = marks.wrapping_mul(GATHER) >> 56;
    proof {
        if marks & !HIGH == 0 {
            lemma_movemask(marks, 0);
            assert forall|i: int| #[trigger] bits::bit(mask, i) == (0 <= i < 8 && bits::bit(
                marks,
                8 * i + 7,
            )) by {
                if 0 <= i < 64 {
                    lemma_movemask(marks, i as u64);
                }
            }
        }
    }
    mask
}

/// Whether `marks` has bit 7 set in the lanes of `word` whose bytes belong to `set`, and no other
/// bit.
pub open spec fn marks_lanes(set: Set<u8>, word: u64, marks: u64) -> bool {
    &&& marks & !HIGH == 0
    &&& forall|i: int| 0 <= i < 8 ==> #[trigger] bits::bit(marks, 8 * i + 7) == set.contains(
        bits::lane(word, i),
    )
}

/// Tests [`WORD_BYTES`] bytes at a time and marks matches in each byte's high bit.
///
/// The view of a kernel is the set of the bytes that it accepts.
pub trait Kernel: Copy + View<V = Set<u8>> {
    /// Marks each matching byte of `word` with `0x80` and each nonmatching byte with zero.
    fn matches(&self, word: u64) -> (marks: u64)
        ensures
            marks_lanes(self@, word, marks),
    ;

    /// Whether the byte set holds `byte`.
    fn matches_byte(&self, byte: u8) -> (found: bool)
        ensures
            found == self@.contains(byte),
    ;
}

/// Reads the word at offset `at`.
pub(crate) fn read_word(haystack: &[u8], at: usize) -> (word: u64)
    requires
        at + 8 <= haystack@.len(),
    ensures
        forall|i: int| 0 <= i < 8 ==> #[trigger] bits::lane(word, i) == haystack@[at + i],
{
    bits::word_from_le_bytes(
        [
            haystack[at],
            haystack[at + 1],
            haystack[at + 2],
            haystack[at + 3],
            haystack[at + 4],
            haystack[at + 5],
            haystack[at + 6],
            haystack[at + 7],
        ],
    )
}

/// Marks have no bits besides bit 7 of each lane.
pub proof fn lemma_low_bits_clear(marks: u64, k: u64)
    by (bit_vector)
    requires
        marks & !0x8080_8080_8080_8080u64 == 0,
        k < 64,
        k % 8 != 7,
    ensures
        (marks >> k) & 1 == 0,
{
}

/// Marks that say of each lane whether it matches are zero exactly when no lane matches; otherwise
/// the lowest of them is in the first lane that matches.
pub proof fn lemma_marks(set: Set<u8>, haystack: Seq<u8>, at: int, word: u64, marks: u64)
    requires
        0 <= at,
        at + 8 <= haystack.len(),
        forall|i: int| 0 <= i < 8 ==> #[trigger] bits::lane(word, i) == haystack[at + i],
        marks_lanes(set, word, marks),
    ensures
        marks == 0 <==> search::no_match(set, haystack, at, at + 8),
        marks != 0 ==> {
            let first = u64_trailing_zeros(marks) as int / 8;
            &&& 0 <= first < 8
            &&& set.contains(haystack[at + first])
            &&& search::no_match(set, haystack, at, at + first)
        },
{
    assert forall|k: int| 0 <= k < 64 && k % 8 != 7 implies !#[trigger] bits::bit(marks, k) by {
        lemma_low_bits_clear(marks, k as u64);
    }
    assert forall|i: int| 0 <= i < 8 implies #[trigger] bits::bit(marks, 8 * i + 7) == set.contains(
        haystack[at + i],
    ) by {
        assert(bits::lane(word, i) == haystack[at + i]);
    }
    bits::lemma_zero_bits(marks);
    if marks == 0 {
        assert forall|k: int| at <= k < at + 8 implies !set.contains(#[trigger] haystack[k]) by {
            assert(!bits::bit(marks, 8 * (k - at) + 7));
        }
    } else {
        bits::lemma_lowest_bit(marks);
        let low = u64_trailing_zeros(marks) as int;
        let first = low / 8;
        assert(low % 8 == 7);
        assert(low == 8 * first + 7);
        assert(set.contains(haystack[at + first]));
        assert forall|k: int| at <= k < at + first implies !set.contains(#[trigger] haystack[k]) by {
            assert(!bits::bit(marks, 8 * (k - at) + 7));
        }
        assert(!search::no_match(set, haystack, at, at + 8));
    }
}

/// Returns match bits for the final partial word in `haystack`.
///
/// Re-reads the last full word when possible; shorter haystacks are staged.
fn tail_bits<K: Kernel>(kernel: &K, haystack: &[u8], tail: &[u8]) -> (window: u64)
    requires
        0 < tail@.len() < 8,
        tail@.len() <= haystack@.len(),
        tail@ == haystack@.skip(haystack@.len() - tail@.len()),
    ensures
        search::marks_window(
            kernel@,
            haystack@,
            haystack@.len() - tail@.len(),
            tail@.len() as int,
            window,
        ),
{
    if haystack.len() >= WORD_BYTES {
        let word: u64 = read_word(haystack, haystack.len() - WORD_BYTES);
        let matched: u64 = movemask(kernel.matches(word));
        let skipped: usize = WORD_BYTES - tail.len();
        proof {
            bits::lemma_bit_shr(matched, skipped as u64);
            assert forall|k: int| #[trigger] bits::bit(matched >> skipped, k) == (0 <= k < tail@.len()
                && kernel@.contains(haystack@[haystack@.len() - tail@.len() + k])) by {
                if 0 <= k {
                    assert(bits::bit(matched >> skipped, k) == bits::bit(matched, k + skipped));
                    if k + skipped < 8 {
                        assert(bits::lane(word, k + skipped) == haystack@[haystack@.len() - 8 + (k
                            + skipped)]);
                    }
                }
            }
        }
        matched >> skipped
    } else {
        assert(tail@.len() <= haystack@.len());
        let window: u64 = short_tail_bits(kernel, tail);
        proof {
            assert forall|k: int| #[trigger] bits::bit(window, k) == (0 <= k < tail@.len()
                && kernel@.contains(haystack@[haystack@.len() - tail@.len() + k])) by {
                if 0 <= k < tail@.len() {
                    assert(tail@[0 + k] == haystack@[haystack@.len() - tail@.len() + k]);
                }
            }
        }
        window
    }
}

/// Copies the first and the last `n` bytes next to each other into the lanes of a word.
fn stage(haystack: &[u8], n: usize) -> (buf: [u8; 8])
    requires
        0 < n <= 4,
        n <= haystack@.len(),
    ensures
        forall|k: int| 0 <= k < n ==> #[trigger] buf[k] == haystack@[k],
        forall|k: int| n <= k < 2 * n ==> #[trigger] buf[k] == haystack@[haystack@.len() - 2 * n + k],
{
    let mut buf: [u8; 8] = [0; 8];
    let from: usize = haystack.len() - n;
    let mut i: usize = 0;
    while i < n
        invariant
            i <= n <= 4,
            n <= haystack@.len(),
            from == haystack@.len() - n,
            forall|k: int| 0 <= k < i ==> #[trigger] buf[k] == haystack@[k],
            forall|k: int| n <= k < n + i ==> #[trigger] buf[k] == haystack@[haystack@.len() - 2 * n + k],
        decreases n - i,
    {
        buf[i] = haystack[i];
        buf[n + i] = haystack[from + i];
        i += 1;
    }
    buf
}

/// Returns match bits for a haystack shorter than [`WORD_BYTES`].
///
/// Both ends are read, and overlapping bytes produce identical bits that are merged.
fn short_tail_bits<K: Kernel>(kernel: &K, haystack: &[u8]) -> (window: u64)
    requires
        0 < haystack@.len() < 8,
    ensures
        search::marks_window(kernel@, haystack@, 0, haystack@.len() as int, window),
{
    let len: usize = haystack.len();
    let staged_len: usize = if len >= 4 {
        4
    } else if len >= 2 {
        2
    } else {
        1
    };
    let buf = stage(haystack, staged_len);
    let word: u64 = bits::word_from_le_bytes(buf);
    let packed: u64 = movemask(kernel.matches(word));
    let window: u64 = bits::slide_ends(packed, staged_len, len);
    proof {
        assert forall|k: int| 0 <= k < 8 implies #[trigger] bits::bit(packed, k)
            == kernel@.contains(buf[k]) by {
            assert(bits::lane(word, k) == buf[k]);
        }
        assert forall|k: int| #[trigger] bits::bit(window, k) == (0 <= k < len && kernel@.contains(
            haystack@[0 + k],
        )) by {
            if 0 <= k < staged_len {
                assert(buf[k] == haystack@[k]);
                assert(bits::bit(packed, k) == kernel@.contains(buf[k]));
            }
            if len - staged_len <= k < len {
                let j = k - (len - staged_len) + staged_len;
                assert(buf[j] == haystack@[k]);
                assert(bits::bit(packed, j) == kernel@.contains(buf[j]));
            }
        }
    }
    window
}

/// The number of words whose matches are added up lane by lane before the lanes are drained: one
/// more could overflow a lane.
const CHUNKS_PER_ACCUMULATOR: usize = 255;

/// The sum of the lanes of `word` below lane `n`.
spec fn lane_sum(word: u64, n: int) -> int
    decreases n,
{
    if n <= 0 {
        0
    } else {
        lane_sum(word, n - 1) + bits::lane(word, n - 1)
    }
}

proof fn lemma_add_marks(counts: u64, marks: u64, i: u64)
    by (bit_vector)
    requires
        i < 8,
        marks & !0x8080_8080_8080_8080u64 == 0,
        (((counts >> 0u64) & 0xff) as u8) < 255,
        (((counts >> 8u64) & 0xff) as u8) < 255,
        (((counts >> 16u64) & 0xff) as u8) < 255,
        (((counts >> 24u64) & 0xff) as u8) < 255,
        (((counts >> 32u64) & 0xff) as u8) < 255,
        (((counts >> 40u64) & 0xff) as u8) < 255,
        (((counts >> 48u64) & 0xff) as u8) < 255,
        (((counts >> 56u64) & 0xff) as u8) < 255,
    ensures
        counts + (marks >> 7u64) <= u64::MAX,
        (((counts + (marks >> 7u64)) as u64 >> ((8 * i) as u64)) & 0xff) as u8 == ((counts >> ((8
            * i) as u64)) & 0xff) as u8 + if (marks >> ((8 * i + 7) as u64)) & 1 == 1 {
            1u8
        } else {
            0u8
        },
{
}

/// Adding the marks of eight bytes to lanes that are not full adds one to each marked lane.
proof fn lemma_count_word(
    set: Set<u8>,
    haystack: Seq<u8>,
    at: int,
    word: u64,
    marks: u64,
    counts: u64,
    n: int,
)
    requires
        0 <= at,
        at + 8 <= haystack.len(),
        0 <= n <= 8,
        forall|i: int| 0 <= i < 8 ==> #[trigger] bits::lane(word, i) == haystack[at + i],
        marks_lanes(set, word, marks),
        forall|i: int| 0 <= i < 8 ==> #[trigger] bits::lane(counts, i) < 255,
    ensures
        counts + (marks >> 7u64) <= u64::MAX,
        forall|i: int| 0 <= i < 8 ==> #[trigger]
            bits::lane((counts + (marks >> 7u64)) as u64, i) <= bits::lane(counts, i) + 1,
        lane_sum((counts + (marks >> 7u64)) as u64, n) == lane_sum(counts, n) + bits::count(
            search::hits(set, haystack),
            at,
            at + n,
        ),
    decreases n,
{
    let sum = (counts + (marks >> 7u64)) as u64;
    assert(bits::lane(counts, 0) < 255 && bits::lane(counts, 1) < 255 && bits::lane(counts, 2) < 255
        && bits::lane(counts, 3) < 255 && bits::lane(counts, 4) < 255 && bits::lane(counts, 5) < 255
        && bits::lane(counts, 6) < 255 && bits::lane(counts, 7) < 255);
    lemma_add_marks(counts, marks, 0);
    assert forall|i: int| 0 <= i < 8 implies #[trigger] bits::lane(sum, i) == bits::lane(counts, i)
        + if set.contains(haystack[at + i]) {
        1int
    } else {
        0
    } by {
        lemma_add_marks(counts, marks, i as u64);
        assert(bits::bit(marks, 8 * i + 7) == set.contains(bits::lane(word, i)));
    }
    if n > 0 {
        lemma_count_word(set, haystack, at, word, marks, counts, n - 1);
        bits::lemma_positions_split(search::hits(set, haystack), at, at + n - 1, at + n);
        assert(bits::positions(search::hits(set, haystack), at + n, at + n).len() == 0);
        assert(bits::lane(sum, n - 1) == bits::lane(counts, n - 1) + if set.contains(
            haystack[at + n - 1],
        ) {
            1int
        } else {
            0
        });
    }
}

/// Adds up the lanes of `counts`.
fn sum_lanes(counts: u64) -> (total: usize)
    ensures
        total == lane_sum(counts, 8),
        total <= 8 * 255,
{
    let mut total: usize = 0;
    let mut i: u64 = 0;
    while i < 8
        invariant
            i <= 8,
            total == lane_sum(counts, i as int),
            total <= 255 * i,
        decreases 8 - i,
    {
        total += ((counts >> (8 * i)) & 0xff) as u8 as usize;
        i += 1;
    }
    total
}

/// Counts the matching bytes of `haystack`.
pub fn count_all<K: Kernel>(haystack: &[u8], kernel: K) -> (total: usize)
    ensures
        total == search::match_offsets(kernel@, haystack@).len(),
{
    let len: usize = haystack.len();
    let ghost matching = search::hits(kernel@, haystack@);
    let mut total: usize = 0;
    let mut offset: usize = 0;
    while len - offset >= WORD_BYTES
        invariant
            offset <= len == haystack@.len(),
            matching == search::hits(kernel@, haystack@),
            total == bits::count(matching, 0, offset as int),
            total <= offset,
        decreases len - offset,
    {
        let ghost batch_start = offset as int;
        let mut counts: u64 = 0;
        let mut chunks: usize = 0;
        proof {
            lemma_no_counts(8);
        }
        while chunks < CHUNKS_PER_ACCUMULATOR && len - offset >= WORD_BYTES
            invariant
                chunks <= 255,
                0 <= batch_start,
                offset == batch_start + 8 * chunks,
                offset <= len == haystack@.len(),
                matching == search::hits(kernel@, haystack@),
                forall|i: int| 0 <= i < 8 ==> #[trigger] bits::lane(counts, i) <= chunks,
                lane_sum(counts, 8) == bits::count(matching, batch_start, offset as int),
            decreases len - offset,
        {
            let word: u64 = read_word(haystack, offset);
            let marks: u64 = kernel.matches(word);
            proof {
                lemma_count_word(kernel@, haystack@, offset as int, word, marks, counts, 8);
                bits::lemma_positions_split(matching, batch_start, offset as int, offset + 8);
            }
            counts = counts + (marks >> 7);
            chunks += 1;
            offset += WORD_BYTES;
        }
        proof {
            bits::lemma_positions_split(matching, 0, batch_start, offset as int);
            bits::lemma_count_full(matching, 0, offset as int);
        }
        total += sum_lanes(counts);
    }
    if offset < len {
        let tail = slice_subrange(haystack, offset, len);
        let window: u64 = short_tail_bits(&kernel, tail);
        proof {
            search::lemma_window_count(kernel@, tail@, 0, len - offset, window);
            bits::lemma_count_shift(
                matching,
                search::hits(kernel@, tail@),
                offset as int,
                0,
                len - offset,
            );
            bits::lemma_positions_split(matching, 0, offset as int, len as int);
            bits::lemma_count_full(matching, 0, len as int);
        }
        total += window.count_ones() as usize;
    }
    total
}

proof fn lemma_no_counts(n: int)
    requires
        0 <= n <= 8,
    ensures
        lane_sum(0, n) == 0,
        forall|i: int| 0 <= i < 8 ==> #[trigger] bits::lane(0, i) == 0,
    decreases n,
{
    assert forall|i: int| 0 <= i < 8 implies #[trigger] bits::lane(0, i) == 0 by {
        lemma_splat_lane(0, i as u64);
    }
    if n > 0 {
        lemma_no_counts(n - 1);
    }
}

/// The lane of the lowest mark.
pub(crate) fn first_lane(marks: u64) -> (lane: usize)
    requires
        marks != 0,
    ensures
        lane == u64_trailing_zeros(marks) as int / 8,
        lane < 8,
{
    proof {
        bits::lemma_lowest_bit(marks);
    }
    marks.trailing_zeros() as usize / 8
}

/// Returns the offset of the first matching byte of `haystack`.
///
/// Uses the first marked byte directly instead of building a full [`movemask`].
pub fn find_first<K: Kernel>(haystack: &[u8], kernel: K) -> (found: Option<usize>)
    ensures
        search::is_first_match(kernel@, haystack@, found),
{
    let len: usize = haystack.len();
    let mut offset: usize = 0;

    // Byte-wise probing is faster than staging for fewer than eight bytes.
    if len < WORD_BYTES {
        while offset < len
            invariant
                offset <= len == haystack@.len(),
                search::no_match(kernel@, haystack@, 0, offset as int),
            decreases len - offset,
        {
            if kernel.matches_byte(haystack[offset]) {
                return Some(offset);
            }
            offset += 1;
        }
        return None;
    }
    while len - offset >= 2 * WORD_BYTES
        invariant
            offset <= len == haystack@.len(),
            search::no_match(kernel@, haystack@, 0, offset as int),
        decreases len - offset,
    {
        let first_word: u64 = read_word(haystack, offset);
        let second_word: u64 = read_word(haystack, offset + WORD_BYTES);
        let first_match: u64 = kernel.matches(first_word);
        let second_match: u64 = kernel.matches(second_word);
        proof {
            lemma_marks(kernel@, haystack@, offset as int, first_word, first_match);
            lemma_marks(kernel@, haystack@, offset + 8, second_word, second_match);
            bits::lemma_or_zero(first_match, second_match);
        }
        if (first_match | second_match) != 0 {
            return Some(
                if first_match != 0 {
                    offset + first_lane(first_match)
                } else {
                    offset + WORD_BYTES + first_lane(second_match)
                },
            );
        }
        offset += 2 * WORD_BYTES;
    }
    while len - offset >= WORD_BYTES
        invariant
            offset <= len == haystack@.len(),
            search::no_match(kernel@, haystack@, 0, offset as int),
        decreases len - offset,
    {
        let word: u64 = read_word(haystack, offset);
        let marks: u64 = kernel.matches(word);
        proof {
            lemma_marks(kernel@, haystack@, offset as int, word, marks);
        }
        if marks != 0 {
            return Some(offset + first_lane(marks));
        }
        offset += WORD_BYTES;
    }
    if offset == len {
        return None;
    }
    let tail = slice_subrange(haystack, offset, len);
    assert(tail@ =~= haystack@.skip(offset as int));
    let window: u64 = tail_bits(&kernel, haystack, tail);
    proof {
        search::lemma_window_first(kernel@, haystack@, offset as int, len - offset, window);
    }
    if window != 0 {
        Some(offset + window.trailing_zeros() as usize)
    } else {
        None
    }
}

/// Scans from `state.scan_offset` until it finds matches or reaches the end.
pub fn find_next<K: Kernel>(state: &mut IterState<'_>, kernel: K) -> (matched: MatchedBitset)
    requires
        old(state).scan_offset <= old(state).haystack@.len(),
    ensures
        search::is_next_batch(kernel@, *old(state), *final(state), matched),
{
    let haystack = state.haystack;
    let mut offset: usize = state.scan_offset;
    let len: usize = haystack.len();
    let ghost from = offset as int;
    while len - offset >= 2 * WORD_BYTES
        invariant
            from <= offset <= len == haystack@.len(),
            search::no_match(kernel@, haystack@, from, offset as int),
            *state == *old(state),
            state.haystack == haystack,
            state.scan_offset == from,
        decreases len - offset,
    {
        let first_word: u64 = read_word(haystack, offset);
        let second_word: u64 = read_word(haystack, offset + WORD_BYTES);
        let first_match: u64 = kernel.matches(first_word);
        let second_match: u64 = kernel.matches(second_word);
        proof {
            lemma_marks(kernel@, haystack@, offset as int, first_word, first_match);
            lemma_marks(kernel@, haystack@, offset + 8, second_word, second_match);
            bits::lemma_or_zero(first_match, second_match);
        }
        if (first_match | second_match) != 0 {
            state.match_base = offset;
            state.scan_offset = offset + 2 * WORD_BYTES;
            let low: u64 = movemask(first_match);
            let high: u64 = movemask(second_match);
            proof {
                bits::lemma_bit_shl(high, 8);
                bits::lemma_bit_ops(low, high << 8);
                bits::lemma_wide_bits(low | high << 8, 0);
                assert forall|k: int| #[trigger] bits::bit128((low | high << 8) as u128, k) == (0
                    <= k < 16 && kernel@.contains(haystack@[offset + k])) by {
                    if 0 <= k < 8 {
                        assert(bits::lane(first_word, k) == haystack@[offset + k]);
                    } else if 8 <= k < 16 {
                        assert(bits::lane(second_word, k - 8) == haystack@[offset + 8 + (k - 8)]);
                    }
                }
                search::lemma_batch_not_empty(
                    kernel@,
                    haystack@,
                    offset as int,
                    16,
                    (low | high << 8) as u128,
                );
            }
            return (low | high << WORD_BYTES) as MatchedBitset;
        }
        offset += 2 * WORD_BYTES;
    }
    while len - offset >= WORD_BYTES
        invariant
            from <= offset <= len == haystack@.len(),
            search::no_match(kernel@, haystack@, from, offset as int),
            *state == *old(state),
            state.haystack == haystack,
            state.scan_offset == from,
        decreases len - offset,
    {
        let word: u64 = read_word(haystack, offset);
        let marks: u64 = kernel.matches(word);
        proof {
            lemma_marks(kernel@, haystack@, offset as int, word, marks);
        }
        if marks != 0 {
            state.match_base = offset;
            state.scan_offset = offset + WORD_BYTES;
            let mask: u64 = movemask(marks);
            proof {
                bits::lemma_wide_bits(mask, 0);
                assert forall|k: int| #[trigger] bits::bit128(mask as u128, k) == (0 <= k < 8
                    && kernel@.contains(haystack@[offset + k])) by {
                    if 0 <= k < 8 {
                        assert(bits::lane(word, k) == haystack@[offset + k]);
                    }
                }
                search::lemma_batch_not_empty(kernel@, haystack@, offset as int, 8, mask as u128);
            }
            return mask as MatchedBitset;
        }
        offset += WORD_BYTES;
    }
    state.match_base = offset;
    state.scan_offset = len;
    if offset == len {
        proof {
            bits::lemma_wide_bits(0, 0);
        }
        0
    } else {
        let tail = slice_subrange(haystack, offset, len);
        assert(tail@ =~= haystack@.skip(offset as int));
        let window: u64 = tail_bits(&kernel, haystack, tail);
        proof {
            bits::lemma_wide_bits(window, 0);
        }
        window as MatchedBitset
    }
}

} // verus!
