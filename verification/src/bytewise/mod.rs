//! Searching one byte at a time.
//!
//! This is where a byte set lands when testing it is a table probe and nothing else. Widening
//! the kernel cannot help: with no shuffle to run the lookup on, there is no way to answer for
//! more than one byte per probe, so the arithmetic of [`crate::swar`] has nothing to offer here.
//!
//! What the wide families do buy, and what this module keeps, is the shape of the scan around
//! the kernel: marks accumulated one byte apart so the probes stay branchless and vectorizable,
//! and packed down to one bit per byte only for a chunk that matched.

pub mod kernels;

use crate::bits;
use crate::search;
use crate::search::{IterState, MatchedBitset};
use crate::swar;
use crate::swar::{first_lane, movemask, read_word, HIGH, WORD_BYTES};
use vstd::prelude::*;
use vstd::slice::*;
use vstd::std_specs::bits::*;

verus! {

/// The number of bytes in a chunk.
pub const CHUNK: usize = 32;

/// Accumulators one chunk's marks are spread across.
pub const WORDS: usize = 4;

/// Tests one byte at a time, the narrowest counterpart of [`crate::vector::Kernel`].
///
/// The view of a kernel is the set of the bytes that it accepts.
pub trait Kernel: Copy + View<V = Set<u8>> {
    /// Whether the byte set holds `byte`.
    fn matches(&self, byte: u8) -> (found: bool)
        ensures
            found == self@.contains(byte),
    ;
}

/// Marks each matching byte of a word at bit 7 of its own lane.
///
/// Spreading the marks a byte apart rather than packing them a bit apart is what makes this
/// vectorizable: every lane is independent, so the probes become vector work instead of a
/// serial chain of shifts into one register. Packing is deferred to [`movemask`], which only
/// the chunks that matched go on to pay for.
fn word_marks<K: Kernel>(kernel: &K, word: u64) -> (marks: u64)
    ensures
        swar::marks_lanes(kernel@, word, marks),
{
    let mut marks: u64 = 0;
    proof {
        bits::lemma_bit_constants();
        bits::lemma_or_zero(!HIGH, 0);
    }
    let mut i: u64 = 0;
    while i < 8
        invariant
            i <= 8,
            marks & !HIGH == 0,
            forall|j: int|
                0 <= j < 8 ==> #[trigger] bits::bit(marks, 8 * j + 7) == (j < i && kernel@.contains(
                    bits::lane(word, j),
                )),
        decreases 8 - i,
    {
        proof {
            swar::kernels::lemma_lane_byte(word, i);
        }
        if kernel.matches((word >> (8 * i)) as u8) {
            let ghost before = marks;
            marks = marks | 1u64 << (i * 8 + 7);
            proof {
                swar::kernels::lemma_mark_lane(before, i, 0);
                assert forall|j: int| 0 <= j < 8 implies #[trigger] bits::bit(marks, 8 * j + 7) == (i
                    == j || bits::bit(before, 8 * j + 7)) by {
                    swar::kernels::lemma_mark_lane(before, i, j as u64);
                }
            }
        }
        i += 1;
    }
    marks
}

/// Whether `marks` has bit 7 of lane `l` set exactly when the byte at `at + l` belongs to `set`,
/// and no other bits.
pub open spec fn marks_bytes(set: Set<u8>, haystack: Seq<u8>, at: int, marks: u64) -> bool {
    &&& marks & !HIGH == 0
    &&& forall|l: int|
        0 <= l < 8 ==> #[trigger] bits::bit(marks, 8 * l + 7) == set.contains(haystack[at + l])
}

/// Marks every matching byte of the chunk at `at`, and the union of those marks.
///
/// The union lets [`find_next`] skip [`pack_marks`] for a chunk that did not match at all, the
/// same gate `swar` puts in front of its own packing pass.
fn chunk_marks<K: Kernel>(kernel: &K, haystack: &[u8], at: usize) -> (marked: ([u64; WORDS], u64))
    requires
        at + 32 <= haystack@.len(),
    ensures
        forall|i: int|
            0 <= i < 4 ==> marks_bytes(
                kernel@,
                haystack@,
                at + 8 * i,
                #[trigger] marked.0@[i],
            ),
        forall|i: int|
            0 <= i < 4 ==> ((#[trigger] marked.0@[i]) == 0 <==> search::no_match(
                kernel@,
                haystack@,
                at + 8 * i,
                at + 8 * i + 8,
            )),
        marked.1 == 0 <==> search::no_match(kernel@, haystack@, at as int, at + 32),
{
    let len: usize = haystack.len();
    let mut marks: [u64; WORDS] = [0; WORDS];
    let mut any: u64 = 0;
    let mut i: usize = 0;
    while i < WORDS
        invariant
            i <= 4,
            at + 32 <= len == haystack@.len(),
            forall|j: int|
                0 <= j < i ==> marks_bytes(kernel@, haystack@, at + 8 * j, #[trigger] marks@[j]),
            forall|j: int|
                0 <= j < i ==> ((#[trigger] marks@[j]) == 0 <==> search::no_match(
                    kernel@,
                    haystack@,
                    at + 8 * j,
                    at + 8 * j + 8,
                )),
            any == 0 <==> search::no_match(kernel@, haystack@, at as int, at + 8 * i),
        decreases 4 - i,
    {
        let word: u64 = read_word(haystack, at + i * WORD_BYTES);
        let word_marks: u64 = word_marks(kernel, word);
        marks[i] = word_marks;
        proof {
            swar::lemma_marks(kernel@, haystack@, at + 8 * i, word, word_marks);
            bits::lemma_or_zero(any, word_marks);
            assert forall|l: int| 0 <= l < 8 implies #[trigger] bits::bit(word_marks, 8 * l + 7)
                == kernel@.contains(haystack@[at + 8 * i + l]) by {
                assert(bits::lane(word, l) == haystack@[at + 8 * i + l]);
            }
        }
        any = any | word_marks;
        i += 1;
    }
    (marks, any)
}

/// Packs marks that are spread a byte apart into bits next to each other.
fn pack_marks(marks: [u64; WORDS]) -> (packed: u64)
    requires
        forall|i: int| 0 <= i < 4 ==> (#[trigger] marks@[i]) & !HIGH == 0,
    ensures
        forall|k: int| #[trigger]
            bits::bit(packed, k) == (0 <= k < 32 && bits::bit(marks@[k / 8], 8 * (k % 8) + 7)),
{
    let mut packed: u64 = 0;
    proof {
        bits::lemma_bit_constants();
    }
    let mut i: usize = 0;
    while i < WORDS
        invariant
            i <= 4,
            forall|j: int| 0 <= j < 4 ==> (#[trigger] marks@[j]) & !HIGH == 0,
            forall|k: int| #[trigger]
                bits::bit(packed, k) == (0 <= k < 8 * i && bits::bit(marks@[k / 8], 8 * (k % 8) + 7)),
        decreases 4 - i,
    {
        let mask: u64 = movemask(marks[i]);
        let ghost before = packed;
        packed = packed | mask << (i * WORD_BYTES);
        proof {
            bits::lemma_bit_shl(mask, (8 * i) as u64);
            bits::lemma_bit_ops(before, mask << (8 * i));
            assert forall|k: int| #[trigger] bits::bit(packed, k) == (0 <= k < 8 * i + 8
                && bits::bit(marks@[k / 8], 8 * (k % 8) + 7)) by {
                assert(bits::bit(packed, k) == (bits::bit(before, k) || bits::bit(
                    mask << (8 * i),
                    k,
                )));
                if 8 * i <= k < 8 * i + 8 {
                    assert(k / 8 == i && k % 8 == k - 8 * i);
                }
            }
        }
        i += 1;
    }
    packed
}

/// Matches `tail`, a run shorter than one [`CHUNK`], returning its bits at positions
/// `0..tail.len()`.
///
/// Whole words go through [`word_marks`] rather than straight into their final bit positions,
/// for the same reason a chunk does: the packed layout serialises the probes. There is no padding
/// to mask off and no already-scanned byte to shift away, because a per-byte scan reads exactly
/// the bytes it reports on.
fn tail_bits<K: Kernel>(kernel: &K, tail: &[u8]) -> (window: u64)
    requires
        tail@.len() < 32,
    ensures
        search::marks_window(kernel@, tail@, 0, tail@.len() as int, window),
{
    let len: usize = tail.len();
    let mut window: u64 = 0;
    let mut at: usize = 0;
    proof {
        bits::lemma_bit_constants();
    }
    while len - at >= WORD_BYTES
        invariant
            at <= len == tail@.len(),
            len < 32,
            search::marks_window(kernel@, tail@, 0, at as int, window),
        decreases len - at,
    {
        let word: u64 = read_word(tail, at);
        let mask: u64 = movemask(word_marks(kernel, word));
        let ghost before = window;
        window = window | mask << at;
        proof {
            bits::lemma_bit_shl(mask, at as u64);
            bits::lemma_bit_ops(before, mask << at);
            assert forall|k: int| #[trigger] bits::bit(window, k) == (0 <= k < at + 8
                && kernel@.contains(tail@[0 + k])) by {
                assert(bits::bit(window, k) == (bits::bit(before, k) || bits::bit(mask << at, k)));
                if at <= k < at + 8 {
                    assert(bits::lane(word, k - at) == tail@[at + (k - at)]);
                }
            }
        }
        at += WORD_BYTES;
    }
    while at < len
        invariant
            at <= len == tail@.len(),
            len < 32,
            search::marks_window(kernel@, tail@, 0, at as int, window),
        decreases len - at,
    {
        if kernel.matches(tail[at]) {
            let ghost before = window;
            window = window | 1u64 << at;
            proof {
                bits::lemma_one();
                bits::lemma_bit_shl(1, at as u64);
                bits::lemma_bit_ops(before, 1u64 << at);
                assert forall|k: int| #[trigger] bits::bit(window, k) == (0 <= k < at + 1
                    && kernel@.contains(tail@[0 + k])) by {
                    assert(bits::bit(window, k) == (bits::bit(before, k) || bits::bit(
                        1u64 << at,
                        k,
                    )));
                }
            }
        }
        at += 1;
    }
    window
}

/// There are as many marks as there are matching bytes.
proof fn lemma_count_marks(set: Set<u8>, haystack: Seq<u8>, at: int, marks: u64, n: int)
    requires
        0 <= n <= 8,
        marks_bytes(set, haystack, at, marks),
    ensures
        bits::count(bits::bits_of(marks), 0, 8 * n) == bits::count(
            search::hits(set, haystack),
            at,
            at + n,
        ),
    decreases n,
{
    if n > 0 {
        let ones = bits::bits_of(marks);
        let matching = search::hits(set, haystack);
        lemma_count_marks(set, haystack, at, marks, n - 1);
        bits::lemma_positions_split(ones, 0, 8 * n - 8, 8 * n);
        bits::lemma_positions_split(ones, 8 * n - 8, 8 * n - 1, 8 * n);
        assert forall|k: int| 8 * n - 8 <= k < 8 * n - 1 implies !#[trigger] ones(k) by {
            swar::lemma_low_bits_clear(marks, k as u64);
        }
        bits::lemma_positions_none(ones, 8 * n - 8, 8 * n - 1);
        bits::lemma_positions_split(matching, at, at + n - 1, at + n);
        bits::lemma_count_one(ones, 8 * n - 1);
        bits::lemma_count_one(matching, at + n - 1);
        assert(bits::bit(marks, 8 * (n - 1) + 7) == set.contains(haystack[at + (n - 1)]));
    }
}

/// Counts every matching byte of `haystack`.
pub fn count<K: Kernel>(haystack: &[u8], kernel: K) -> (total: usize)
    ensures
        total == search::match_offsets(kernel@, haystack@).len(),
{
    let len: usize = haystack.len();
    let ghost matching = search::hits(kernel@, haystack@);
    let mut total: usize = 0;
    let mut at: usize = 0;
    // One `count_ones` per eight probes, rather than one add per probe serialised on `total`.
    while len - at >= WORD_BYTES
        invariant
            at <= len == haystack@.len(),
            matching == search::hits(kernel@, haystack@),
            total == bits::count(matching, 0, at as int),
        decreases len - at,
    {
        let word: u64 = read_word(haystack, at);
        let marks: u64 = word_marks(&kernel, word);
        proof {
            assert forall|l: int| 0 <= l < 8 implies #[trigger] bits::bit(marks, 8 * l + 7)
                == kernel@.contains(haystack@[at + l]) by {
                assert(bits::lane(word, l) == haystack@[at + l]);
            }
            lemma_count_marks(kernel@, haystack@, at as int, marks, 8);
            bits::lemma_positions_split(matching, 0, at as int, at + 8);
            bits::lemma_count_full(matching, 0, at + 8);
        }
        total += marks.count_ones() as usize;
        at += WORD_BYTES;
    }
    while at < len
        invariant
            at <= len == haystack@.len(),
            matching == search::hits(kernel@, haystack@),
            total == bits::count(matching, 0, at as int),
        decreases len - at,
    {
        proof {
            bits::lemma_positions_split(matching, 0, at as int, at + 1);
            bits::lemma_count_one(matching, at as int);
            bits::lemma_count_full(matching, 0, at + 1);
        }
        if kernel.matches(haystack[at]) {
            total += 1;
        }
        at += 1;
    }
    total
}

/// The offset within a chunk of its first marked byte.
fn first_mark(marks: [u64; WORDS]) -> (first: usize)
    requires
        exists|i: int| 0 <= i < 4 && #[trigger] marks@[i] != 0,
    ensures
        first < 32,
        marks@[first as int / 8] != 0,
        forall|i: int| 0 <= i < first as int / 8 ==> #[trigger] marks@[i] == 0,
        first as int % 8 == u64_trailing_zeros(marks@[first as int / 8]) as int / 8,
{
    let mut i: usize = 0;
    while marks[i] == 0
        invariant
            i < 4,
            forall|j: int| 0 <= j < i ==> #[trigger] marks@[j] == 0,
            exists|j: int| 0 <= j < 4 && #[trigger] marks@[j] != 0,
        decreases 4 - i,
    {
        i += 1;
    }
    i * WORD_BYTES + first_lane(marks[i])
}

/// Returns the offset of the first matching byte of `haystack`.
///
/// A chunk's marks stay spread a byte apart, so the first match is read straight off the
/// accumulator that holds it: the union already says which word to look in, and within a word a
/// mark is at bit 7 of its own byte. [`pack_marks`] never runs.
pub fn find_first<K: Kernel>(haystack: &[u8], kernel: K) -> (found: Option<usize>)
    ensures
        search::is_first_match(kernel@, haystack@, found),
{
    let len: usize = haystack.len();
    let mut offset: usize = 0;
    while len - offset >= CHUNK
        invariant
            offset <= len == haystack@.len(),
            search::no_match(kernel@, haystack@, 0, offset as int),
        decreases len - offset,
    {
        let (marks, any) = chunk_marks(&kernel, haystack, offset);
        if any != 0 {
            proof {
                lemma_some_word(kernel@, haystack@, offset as int, marks@);
            }
            let first: usize = first_mark(marks);
            proof {
                lemma_first_mark(kernel@, haystack@, offset as int, marks@, first as int);
            }
            return Some(offset + first);
        }
        offset += CHUNK;
    }
    let tail = slice_subrange(haystack, offset, len);
    let window: u64 = tail_bits(&kernel, tail);
    proof {
        lemma_tail_window(kernel@, haystack@, offset as int, tail@, window);
        search::lemma_window_first(kernel@, haystack@, offset as int, len - offset, window);
    }
    if window != 0 {
        Some(offset + window.trailing_zeros() as usize)
    } else {
        None
    }
}

/// The bits of a tail are those of the window that it fills.
proof fn lemma_tail_window(set: Set<u8>, haystack: Seq<u8>, at: int, tail: Seq<u8>, window: u64)
    requires
        0 <= at <= haystack.len(),
        tail == haystack.subrange(at, haystack.len() as int),
        search::marks_window(set, tail, 0, tail.len() as int, window),
    ensures
        search::marks_window(set, haystack, at, haystack.len() - at, window),
{
    assert forall|k: int| #[trigger] bits::bit(window, k) == (0 <= k < haystack.len() - at
        && set.contains(haystack[at + k])) by {
        if 0 <= k < tail.len() {
            assert(tail[0 + k] == haystack[at + k]);
        }
    }
}

/// Some word of a chunk that matches has marks.
proof fn lemma_some_word(set: Set<u8>, haystack: Seq<u8>, at: int, marks: Seq<u64>)
    requires
        marks.len() == 4,
        !search::no_match(set, haystack, at, at + 32),
        forall|i: int|
            0 <= i < 4 ==> ((#[trigger] marks[i]) == 0 <==> search::no_match(
                set,
                haystack,
                at + 8 * i,
                at + 8 * i + 8,
            )),
    ensures
        exists|i: int| 0 <= i < 4 && #[trigger] marks[i] != 0,
{
    let k = choose|k: int| at <= k < at + 32 && set.contains(#[trigger] haystack[k]);
    let i = (k - at) / 8;
    assert(at + 8 * i <= k < at + 8 * i + 8);
    assert(marks[i] != 0);
}

/// The first mark of a chunk stands for its first match.
proof fn lemma_first_mark(set: Set<u8>, haystack: Seq<u8>, at: int, marks: Seq<u64>, first: int)
    requires
        marks.len() == 4,
        0 <= first < 32,
        forall|i: int| 0 <= i < 4 ==> marks_bytes(set, haystack, at + 8 * i, #[trigger] marks[i]),
        forall|i: int|
            0 <= i < 4 ==> ((#[trigger] marks[i]) == 0 <==> search::no_match(
                set,
                haystack,
                at + 8 * i,
                at + 8 * i + 8,
            )),
        marks[first / 8] != 0,
        forall|i: int| 0 <= i < first / 8 ==> #[trigger] marks[i] == 0,
        first % 8 == u64_trailing_zeros(marks[first / 8]) as int / 8,
    ensures
        set.contains(haystack[at + first]),
        search::no_match(set, haystack, at, at + first),
{
    let w = first / 8;
    let word = marks[w];
    assert(marks_bytes(set, haystack, at + 8 * w, word));
    bits::lemma_lowest_bit(word);
    let low = u64_trailing_zeros(word) as int;
    if low % 8 != 7 {
        swar::lemma_low_bits_clear(word, low as u64);
    }
    assert(bits::bit(word, 8 * (first % 8) + 7));
    assert(at + 8 * w + first % 8 == at + first);
    assert forall|k: int| at <= k < at + first implies !set.contains(#[trigger] haystack[k]) by {
        let i = (k - at) / 8;
        assert(at + 8 * i <= k < at + 8 * i + 8);
        if i < w {
            assert(marks[i] == 0);
        } else {
            let l = k - at - 8 * w;
            assert(!bits::bit(word, 8 * l + 7));
            assert(at + 8 * w + l == k);
        }
    }
}

/// Scans from `state.scan_offset` for the first [`CHUNK`] that contains a match.
pub fn find_next<K: Kernel>(state: &mut IterState<'_>, kernel: K) -> (matched: MatchedBitset)
    requires
        old(state).scan_offset <= old(state).haystack@.len(),
    ensures
        search::is_next_batch(kernel@, *old(state), *final(state), matched),
{
    let haystack = state.haystack;
    let mut offset: usize = state.scan_offset;
    let len: usize = haystack.len();
    let ghost from = offset as int;
    while len - offset >= CHUNK
        invariant
            from <= offset <= len == haystack@.len(),
            search::no_match(kernel@, haystack@, from, offset as int),
            *state == *old(state),
            state.haystack == haystack,
            state.scan_offset == from,
        decreases len - offset,
    {
        let (marks, any) = chunk_marks(&kernel, haystack, offset);
        if any != 0 {
            state.match_base = offset;
            state.scan_offset = offset + CHUNK;
            let packed: u64 = pack_marks(marks);
            proof {
                bits::lemma_wide_bits(packed, 0);
                assert forall|k: int| #[trigger] bits::bit128(packed as u128, k) == (0 <= k < 32
                    && kernel@.contains(haystack@[offset + k])) by {
                    if 0 <= k < 32 {
                        assert(marks_bytes(
                            kernel@,
                            haystack@,
                            offset + 8 * (k / 8),
                            marks@[k / 8],
                        ));
                        assert(bits::bit(marks@[k / 8], 8 * (k % 8) + 7) == kernel@.contains(
                            haystack@[offset + 8 * (k / 8) + k % 8],
                        ));
                        assert(8 * (k / 8) + k % 8 == k);
                    }
                }
                search::lemma_batch_not_empty(
                    kernel@,
                    haystack@,
                    offset as int,
                    32,
                    packed as u128,
                );
            }
            return packed as MatchedBitset;
        }
        offset += CHUNK;
    }
    state.match_base = offset;
    state.scan_offset = len;
    let tail = slice_subrange(haystack, offset, len);
    let window: u64 = tail_bits(&kernel, tail);
    proof {
        lemma_tail_window(kernel@, haystack@, offset as int, tail@, window);
        bits::lemma_wide_bits(window, 0);
    }
    window as MatchedBitset
}

} // verus!
