//! Searches whole vectors of bytes at a time.

pub mod kernels;
pub mod lanes;

use crate::bits;
use crate::search;
use crate::search::{IterState, MatchedBitset};
use crate::vector::lanes::Lanes;
use fearless_simd::Level;
use vstd::prelude::*;
use vstd::slice::*;
use vstd::std_specs::bits::*;

verus! {

/// The number of bytes in a chunk.
pub const CHUNK_BYTES: usize = 64;

/// The number of bytes in a block.
pub const BLOCK_BYTES: usize = 16;

/// Leading bytes probed before staging a sub-vector haystack.
///
/// One probe improves front-match latency; additional probes slow misses and later matches.
pub const PROBE_BYTES: usize = 1;

/// Tests vectors of bytes against a byte set.
///
/// The view of a kernel is the set of the bytes that it accepts.
pub trait Kernel: Copy + View<V = Set<u8>> {
    /// Tells which lanes of `chunk` hold bytes of the set.
    fn matches<V: Lanes>(&self, level: Level, chunk: &V) -> (mask: u64)
        ensures
            search::marks_window(self@, chunk@, 0, V::width(), mask),
    ;

    /// Whether the byte set holds `byte`.
    ///
    /// This scalar path avoids staging for the leading bytes of short haystacks.
    fn matches_byte(&self, byte: u8) -> (found: bool)
        ensures
            found == self@.contains(byte),
    ;
}

/// Whether `level` has a single-instruction dynamic byte shuffle.
pub open spec fn shuffles(level: Level) -> bool {
    level is Sse4_2 || level is Avx2 || level is Avx512
}

/// Whether the target has a single-instruction dynamic byte shuffle.
///
/// Shuffle-based kernels fall back to [`crate::search::BitsetLookup`] without one. SSE2 lacks it;
/// the later levels have it.
pub fn has_byte_shuffle(level: Level) -> (shuffle: bool)
    ensures
        shuffle == shuffles(level),
{
    level.as_sse4_2().is_some()
}

/// Tells which bytes of the vector at offset `at` match.
fn chunk_bits<V: Lanes, K: Kernel>(
    level: Level,
    kernel: &K,
    haystack: &[u8],
    at: usize,
) -> (mask: u64)
    requires
        at + V::width() <= haystack@.len(),
    ensures
        search::marks_window(kernel@, haystack@, at as int, V::width(), mask),
{
    let chunk = V::load(haystack, at);
    let mask: u64 = kernel.matches(level, &chunk);
    proof {
        chunk.lemma_width();
        assert forall|k: int| #[trigger] bits::bit(mask, k) == (0 <= k < V::width()
            && kernel@.contains(haystack@[at + k])) by {
            if 0 <= k < V::width() {
                assert(chunk@[0 + k] == haystack@[at + k]);
            }
        }
    }
    mask
}

/// Scans from the current position until it finds matches or reaches the end.
///
/// Chunk pairs share one test for a match and are returned together so the second chunk is not
/// rescanned.
pub fn next_match_batch<K: Kernel>(
    level: Level,
    state: &mut IterState<'_>,
    kernel: K,
) -> (matched: MatchedBitset)
    requires
        old(state).scan_offset <= old(state).haystack@.len(),
    ensures
        search::is_next_batch(kernel@, *old(state), *final(state), matched),
{
    let haystack = state.haystack;
    let mut offset: usize = state.scan_offset;
    let len: usize = haystack.len();
    let ghost from = offset as int;
    while len - offset >= 2 * CHUNK_BYTES
        invariant
            from <= offset <= len == haystack@.len(),
            search::no_match(kernel@, haystack@, from, offset as int),
            *state == *old(state),
            state.haystack == haystack,
            state.scan_offset == from,
        decreases len - offset,
    {
        let first: u64 = chunk_bits::<[u8; 64], K>(level, &kernel, haystack, offset);
        let second: u64 = chunk_bits::<[u8; 64], K>(level, &kernel, haystack, offset + CHUNK_BYTES);
        proof {
            search::lemma_window_first(kernel@, haystack@, offset as int, 64, first);
            search::lemma_window_first(kernel@, haystack@, offset + 64, 64, second);
            bits::lemma_or_zero(first, second);
        }
        if (first | second) != 0 {
            state.match_base = offset;
            state.scan_offset = offset + 2 * CHUNK_BYTES;
            let matched: MatchedBitset = first as MatchedBitset | (second as MatchedBitset) << 64;
            proof {
                bits::lemma_wide_bits(first, second);
                assert forall|k: int| #[trigger] bits::bit128(matched, k) == (0 <= k < 128
                    && kernel@.contains(haystack@[offset + k])) by {
                    assert(bits::bit128(matched, k) == (bits::bit(first, k) || bits::bit(
                        second,
                        k - 64,
                    )));
                    assert(offset + 64 + (k - 64) == offset + k);
                }
                search::lemma_batch_not_empty(kernel@, haystack@, offset as int, 128, matched);
            }
            return matched;
        }
        offset += 2 * CHUNK_BYTES;
    }
    if len - offset >= CHUNK_BYTES {
        let mask: u64 = chunk_bits::<[u8; 64], K>(level, &kernel, haystack, offset);
        proof {
            search::lemma_window_first(kernel@, haystack@, offset as int, 64, mask);
            bits::lemma_wide_bits(mask, 0);
        }
        if mask != 0 {
            state.match_base = offset;
            state.scan_offset = offset + CHUNK_BYTES;
            proof {
                search::lemma_batch_not_empty(kernel@, haystack@, offset as int, 64, mask as u128);
            }
            return mask as MatchedBitset;
        }
        offset += CHUNK_BYTES;
    }
    while len - offset >= BLOCK_BYTES
        invariant
            from <= offset <= len == haystack@.len(),
            search::no_match(kernel@, haystack@, from, offset as int),
            *state == *old(state),
            state.haystack == haystack,
            state.scan_offset == from,
        decreases len - offset,
    {
        let mask: u64 = chunk_bits::<[u8; 16], K>(level, &kernel, haystack, offset);
        proof {
            search::lemma_window_first(kernel@, haystack@, offset as int, 16, mask);
            bits::lemma_wide_bits(mask, 0);
        }
        if mask != 0 {
            state.match_base = offset;
            state.scan_offset = offset + BLOCK_BYTES;
            proof {
                search::lemma_batch_not_empty(kernel@, haystack@, offset as int, 16, mask as u128);
            }
            return mask as MatchedBitset;
        }
        offset += BLOCK_BYTES;
    }
    state.match_base = offset;
    state.scan_offset = len;
    if offset == len {
        proof {
            bits::lemma_wide_bits(0, 0);
        }
        0
    } else {
        let tail = slice_subrange(haystack, offset, len);
        assert(tail@ =~= haystack@.skip(offset as int));
        let window: u64 = tail_bits(level, &kernel, haystack, tail);
        proof {
            bits::lemma_wide_bits(window, 0);
        }
        window as MatchedBitset
    }
}

/// Returns the offset of the first matching byte of `haystack`.
///
/// Handles short haystacks and the first chunk before entering the paired scan loop.
pub fn first_match<K: Kernel>(level: Level, haystack: &[u8], kernel: K) -> (found: Option<usize>)
    ensures
        search::is_first_match(kernel@, haystack@, found),
{
    let len: usize = haystack.len();
    if len < CHUNK_BYTES {
        return first_match_short(level, haystack, kernel);
    }
    // Avoid loading the second chunk before checking the common first-chunk case.
    let mask: u64 = chunk_bits::<[u8; 64], K>(level, &kernel, haystack, 0);
    proof {
        search::lemma_window_first(kernel@, haystack@, 0, 64, mask);
    }
    if mask != 0 {
        return Some(mask.trailing_zeros() as usize);
    }
    let mut offset: usize = CHUNK_BYTES;
    while len - offset >= 2 * CHUNK_BYTES
        invariant
            offset <= len == haystack@.len(),
            search::no_match(kernel@, haystack@, 0, offset as int),
        decreases len - offset,
    {
        let first: u64 = chunk_bits::<[u8; 64], K>(level, &kernel, haystack, offset);
        let second: u64 = chunk_bits::<[u8; 64], K>(level, &kernel, haystack, offset + CHUNK_BYTES);
        proof {
            search::lemma_window_first(kernel@, haystack@, offset as int, 64, first);
            search::lemma_window_first(kernel@, haystack@, offset + 64, 64, second);
            bits::lemma_or_zero(first, second);
        }
        if (first | second) != 0 {
            return Some(
                if first != 0 {
                    offset + first.trailing_zeros() as usize
                } else {
                    offset + CHUNK_BYTES + second.trailing_zeros() as usize
                },
            );
        }
        offset += 2 * CHUNK_BYTES;
    }
    if len - offset >= CHUNK_BYTES {
        let mask: u64 = chunk_bits::<[u8; 64], K>(level, &kernel, haystack, offset);
        proof {
            search::lemma_window_first(kernel@, haystack@, offset as int, 64, mask);
        }
        if mask != 0 {
            return Some(offset + mask.trailing_zeros() as usize);
        }
        offset += CHUNK_BYTES;
    }
    // Re-read the last chunk; the overlapping prefix is known not to match.
    if offset == len {
        return None;
    }
    let last: usize = len - CHUNK_BYTES;
    let mask: u64 = chunk_bits::<[u8; 64], K>(level, &kernel, haystack, last);
    proof {
        search::lemma_window_first(kernel@, haystack@, last as int, 64, mask);
    }
    if mask != 0 {
        Some(last + mask.trailing_zeros() as usize)
    } else {
        None
    }
}

/// The first match of a haystack that two vectors cover, one at each end.
fn first_match_ends<V: Lanes, K: Kernel>(
    level: Level,
    haystack: &[u8],
    kernel: &K,
    width: usize,
) -> (found: Option<usize>)
    requires
        width == V::width(),
        width <= 64,
        width <= haystack@.len() <= 2 * width,
    ensures
        search::is_first_match(kernel@, haystack@, found),
{
    let front: u64 = chunk_bits::<V, K>(level, kernel, haystack, 0);
    proof {
        search::lemma_window_first(kernel@, haystack@, 0, width as int, front);
    }
    if front != 0 {
        return Some(front.trailing_zeros() as usize);
    }
    let last: usize = haystack.len() - width;
    let back: u64 = chunk_bits::<V, K>(level, kernel, haystack, last);
    proof {
        search::lemma_window_first(kernel@, haystack@, last as int, width as int, back);
    }
    if back != 0 {
        Some(last + back.trailing_zeros() as usize)
    } else {
        None
    }
}

/// [`first_match`] for a haystack shorter than one [`CHUNK_BYTES`].
///
/// Overlapping front and back vectors avoid a loop. Sub-vector haystacks use a scalar probe
/// followed by staged ends.
fn first_match_short<K: Kernel>(level: Level, haystack: &[u8], kernel: K) -> (found: Option<usize>)
    requires
        haystack@.len() < 64,
    ensures
        search::is_first_match(kernel@, haystack@, found),
{
    let len: usize = haystack.len();
    if len >= 2 * BLOCK_BYTES {
        return first_match_ends::<[u8; 32], K>(level, haystack, &kernel, 2 * BLOCK_BYTES);
    }
    if len >= BLOCK_BYTES {
        return first_match_ends::<[u8; 16], K>(level, haystack, &kernel, BLOCK_BYTES);
    }
    let mut offset: usize = 0;
    while offset < len && offset < PROBE_BYTES
        invariant
            offset <= len == haystack@.len(),
            offset <= PROBE_BYTES,
            search::no_match(kernel@, haystack@, 0, offset as int),
        decreases len - offset,
    {
        if kernel.matches_byte(haystack[offset]) {
            return Some(offset);
        }
        offset += 1;
    }
    if len <= PROBE_BYTES {
        return None;
    }
    // Keep staged ends separate so each half retains its original offset.
    let rest = slice_subrange(haystack, PROBE_BYTES, len);
    let (packed, staged_len) = staged_ends_bits(level, &kernel, rest);
    let keep_mask: u64 = !(u64::MAX << staged_len);
    let front: u64 = packed & keep_mask;
    let back: u64 = (packed >> staged_len) & keep_mask;
    proof {
        bits::lemma_bit_constants();
        bits::lemma_bit_shl(u64::MAX, staged_len as u64);
        bits::lemma_bit_ops(u64::MAX << staged_len, 0);
        bits::lemma_bit_ops(packed, keep_mask);
        bits::lemma_bit_shr(packed, staged_len as u64);
        bits::lemma_bit_ops(packed >> staged_len, keep_mask);
        assert forall|k: int| #[trigger] bits::bit(front, k) == (0 <= k < staged_len
            && kernel@.contains(haystack@[1 + k])) by {
            if 0 <= k < staged_len {
                assert(rest@[k] == haystack@[1 + k]);
            }
        }
        assert forall|k: int| #[trigger] bits::bit(back, k) == (0 <= k < staged_len
            && kernel@.contains(haystack@[len - staged_len + k])) by {
            if 0 <= k < staged_len {
                assert(bits::bit(packed, k + staged_len) == kernel@.contains(
                    rest@[rest@.len() - 2 * staged_len + (k + staged_len)],
                ));
            }
        }
        search::lemma_window_first(kernel@, haystack@, 1, staged_len as int, front);
        search::lemma_window_first(
            kernel@,
            haystack@,
            len - staged_len,
            staged_len as int,
            back,
        );
    }
    if front != 0 {
        return Some(PROBE_BYTES + front.trailing_zeros() as usize);
    }
    if back != 0 {
        Some(len - staged_len + back.trailing_zeros() as usize)
    } else {
        None
    }
}

/// The number of chunks whose matches are added up lane by lane before the lanes are drained: one
/// more could overflow a lane.
const CHUNKS_PER_ACCUMULATOR: usize = 255;

/// The sum of the first `n` lanes.
spec fn lane_sum(counts: Seq<u8>, n: int) -> int
    decreases n,
{
    if n <= 0 {
        0
    } else {
        lane_sum(counts, n - 1) + counts[n - 1]
    }
}

/// Adding one to every lane that matches adds the number of matches to the sum of the lanes.
proof fn lemma_lane_sum(
    before: Seq<u8>,
    after: Seq<u8>,
    set: Set<u8>,
    haystack: Seq<u8>,
    at: int,
    n: int,
)
    requires
        0 <= n <= before.len(),
        before.len() == after.len(),
        forall|k: int|
            0 <= k < n ==> #[trigger] after[k] == before[k] + if set.contains(haystack[at + k]) {
                1int
            } else {
                0
            },
    ensures
        lane_sum(after, n) == lane_sum(before, n) + bits::count(
            search::hits(set, haystack),
            at,
            at + n,
        ),
    decreases n,
{
    if n > 0 {
        lemma_lane_sum(before, after, set, haystack, at, n - 1);
        bits::lemma_positions_split(search::hits(set, haystack), at, at + n - 1, at + n);
        assert(bits::positions(search::hits(set, haystack), at + n, at + n).len() == 0);
        assert(after[n - 1] == before[n - 1] + if set.contains(haystack[at + n - 1]) {
            1int
        } else {
            0
        });
    }
}

/// The lanes of a fresh accumulator add up to nothing.
proof fn lemma_no_counts(counts: Seq<u8>, n: int)
    requires
        0 <= n <= counts.len(),
        forall|k: int| 0 <= k < counts.len() ==> #[trigger] counts[k] == 0,
    ensures
        lane_sum(counts, n) == 0,
    decreases n,
{
    if n > 0 {
        lemma_no_counts(counts, n - 1);
    }
}

/// Adds one to every lane of `counts` that `mask` marks.
fn add_matches<const N: usize>(counts: &mut [u8; N], mask: u64)
    requires
        N <= 64,
        forall|k: int| 0 <= k < N ==> #[trigger] old(counts)@[k] < 255,
    ensures
        forall|k: int|
            0 <= k < N ==> #[trigger] final(counts)@[k] == old(counts)@[k] + if bits::bit(mask, k) {
                1int
            } else {
                0
            },
{
    let ghost before = counts@;
    let mut i: usize = 0;
    while i < N
        invariant
            i <= N <= 64,
            before.len() == N,
            forall|k: int| 0 <= k < N ==> #[trigger] before[k] < 255,
            forall|k: int| i <= k < N ==> #[trigger] counts@[k] == before[k],
            forall|k: int|
                0 <= k < i ==> #[trigger] counts@[k] == before[k] + if bits::bit(mask, k) {
                    1int
                } else {
                    0
                },
        decreases N - i,
    {
        if (mask >> i) & 1 == 1 {
            counts[i] = counts[i] + 1;
        }
        i += 1;
    }
}

/// Sums every lane of a vector.
fn sum_lanes<const N: usize>(counts: &[u8; N]) -> (total: usize)
    requires
        N <= 64,
    ensures
        total == lane_sum(counts@, N as int),
{
    let mut total: usize = 0;
    let mut i: usize = 0;
    while i < N
        invariant
            i <= N <= 64,
            total == lane_sum(counts@, i as int),
            total <= 255 * i,
        decreases N - i,
    {
        total += counts[i] as usize;
        i += 1;
    }
    total
}

/// Counts every matching byte of `haystack`.
pub fn count_all<K: Kernel>(level: Level, haystack: &[u8], kernel: K) -> (total: usize)
    ensures
        total == search::match_offsets(kernel@, haystack@).len(),
{
    let len: usize = haystack.len();
    let ghost matching = search::hits(kernel@, haystack@);
    let mut total: usize = 0;
    let mut offset: usize = 0;
    while len - offset >= CHUNK_BYTES
        invariant
            offset <= len == haystack@.len(),
            matching == search::hits(kernel@, haystack@),
            total == bits::count(matching, 0, offset as int),
        decreases len - offset,
    {
        let ghost batch_start = offset as int;
        let mut counts: [u8; 64] = [0; 64];
        let mut chunks: usize = 0;
        proof {
            lemma_no_counts(counts@, 64);
        }
        while chunks < CHUNKS_PER_ACCUMULATOR && len - offset >= CHUNK_BYTES
            invariant
                chunks <= 255,
                0 <= batch_start,
                offset == batch_start + 64 * chunks,
                offset <= len == haystack@.len(),
                matching == search::hits(kernel@, haystack@),
                forall|k: int| 0 <= k < 64 ==> #[trigger] counts@[k] <= chunks,
                lane_sum(counts@, 64) == bits::count(matching, batch_start, offset as int),
            decreases len - offset,
        {
            let mask: u64 = chunk_bits::<[u8; 64], K>(level, &kernel, haystack, offset);
            let ghost before = counts@;
            add_matches(&mut counts, mask);
            proof {
                lemma_lane_sum(before, counts@, kernel@, haystack@, offset as int, 64);
                bits::lemma_positions_split(matching, batch_start, offset as int, offset + 64);
            }
            chunks += 1;
            offset += CHUNK_BYTES;
        }
        proof {
            bits::lemma_positions_split(matching, 0, batch_start, offset as int);
            bits::lemma_count_full(matching, 0, offset as int);
        }
        total += sum_lanes(&counts);
    }
    if len - offset >= BLOCK_BYTES {
        let ghost batch_start = offset as int;
        let mut counts: [u8; 16] = [0; 16];
        proof {
            lemma_no_counts(counts@, 16);
        }
        while len - offset >= BLOCK_BYTES
            invariant
                0 <= batch_start <= offset <= len == haystack@.len(),
                len - batch_start < 64,
                matching == search::hits(kernel@, haystack@),
                forall|k: int| 0 <= k < 16 ==> #[trigger] counts@[k] <= offset - batch_start,
                lane_sum(counts@, 16) == bits::count(matching, batch_start, offset as int),
            decreases len - offset,
        {
            let mask: u64 = chunk_bits::<[u8; 16], K>(level, &kernel, haystack, offset);
            let ghost before = counts@;
            add_matches(&mut counts, mask);
            proof {
                lemma_lane_sum(before, counts@, kernel@, haystack@, offset as int, 16);
                bits::lemma_positions_split(matching, batch_start, offset as int, offset + 16);
            }
            offset += BLOCK_BYTES;
        }
        proof {
            bits::lemma_positions_split(matching, 0, batch_start, offset as int);
            bits::lemma_count_full(matching, 0, offset as int);
        }
        total += sum_lanes(&counts);
    }
    if offset < len {
        let tail = slice_subrange(haystack, offset, len);
        assert(tail@ =~= haystack@.skip(offset as int));
        let window: u64 = tail_bits(level, &kernel, haystack, tail);
        proof {
            search::lemma_window_count(kernel@, haystack@, offset as int, len - offset, window);
            bits::lemma_positions_split(matching, 0, offset as int, len as int);
            bits::lemma_count_full(matching, 0, len as int);
        }
        total += window.count_ones() as usize;
    }
    total
}

/// Returns match bits for the final partial block in `haystack`.
///
/// Re-reads the last full block when possible; shorter haystacks are staged.
fn tail_bits<K: Kernel>(level: Level, kernel: &K, haystack: &[u8], tail: &[u8]) -> (window: u64)
    requires
        0 < tail@.len() < 16,
        tail@.len() <= haystack@.len(),
        tail@ == haystack@.skip(haystack@.len() - tail@.len()),
    ensures
        search::marks_window(
            kernel@,
            haystack@,
            haystack@.len() - tail@.len(),
            tail@.len() as int,
            window,
        ),
{
    if haystack.len() >= BLOCK_BYTES {
        let at: usize = haystack.len() - BLOCK_BYTES;
        let matched: u64 = chunk_bits::<[u8; 16], K>(level, kernel, haystack, at);
        let skipped: usize = BLOCK_BYTES - tail.len();
        proof {
            bits::lemma_bit_shr(matched, skipped as u64);
            assert forall|k: int| #[trigger] bits::bit(matched >> skipped, k) == (0 <= k < tail@.len()
                && kernel@.contains(haystack@[haystack@.len() - tail@.len() + k])) by {
                if 0 <= k {
                    assert(bits::bit(matched >> skipped, k) == bits::bit(matched, k + skipped));
                    assert(at + (k + skipped) == haystack@.len() - tail@.len() + k);
                }
            }
        }
        matched >> skipped
    } else {
        let window: u64 = short_tail_bits(level, kernel, tail);
        proof {
            assert forall|k: int| #[trigger] bits::bit(window, k) == (0 <= k < tail@.len()
                && kernel@.contains(haystack@[haystack@.len() - tail@.len() + k])) by {
                if 0 <= k < tail@.len() {
                    assert(tail@[0 + k] == haystack@[haystack@.len() - tail@.len() + k]);
                }
            }
        }
        window
    }
}

/// Packs the first and the last `n` bytes next to each other into a block.
fn ends(haystack: &[u8], n: usize) -> (block: [u8; 16])
    requires
        0 < n <= 8,
        n <= haystack@.len(),
    ensures
        forall|k: int| 0 <= k < n ==> #[trigger] block@[k] == haystack@[k],
        forall|k: int|
            n <= k < 2 * n ==> #[trigger] block@[k] == haystack@[haystack@.len() - 2 * n + k],
{
    let mut block: [u8; 16] = [0; 16];
    let from: usize = haystack.len() - n;
    let mut i: usize = 0;
    while i < n
        invariant
            i <= n <= 8,
            n <= haystack@.len(),
            from == haystack@.len() - n,
            forall|k: int| 0 <= k < i ==> #[trigger] block@[k] == haystack@[k],
            forall|k: int|
                n <= k < n + i ==> #[trigger] block@[k] == haystack@[haystack@.len() - 2 * n + k],
        decreases n - i,
    {
        block[i] = haystack[i];
        block[n + i] = haystack[from + i];
        i += 1;
    }
    block
}

/// The number of bytes staged from each end of a haystack of `len` bytes.
pub open spec fn staged_len_of(len: int) -> int {
    if len >= 8 {
        8
    } else if len >= 4 {
        4
    } else if len >= 2 {
        2
    } else {
        1
    }
}

/// Returns match bits for both ends of a haystack shorter than [`BLOCK_BYTES`].
///
/// The returned halves may overlap and only their lowest `staged_len` bits are valid.
fn staged_ends_bits<K: Kernel>(
    level: Level,
    kernel: &K,
    short_haystack: &[u8],
) -> (staged: (u64, usize))
    requires
        0 < short_haystack@.len() < 16,
    ensures
        staged.1 == staged_len_of(short_haystack@.len() as int),
        forall|k: int|
            0 <= k < staged.1 ==> #[trigger] bits::bit(staged.0, k) == kernel@.contains(
                short_haystack@[k],
            ),
        forall|k: int|
            staged.1 <= k < 2 * staged.1 ==> #[trigger] bits::bit(staged.0, k) == kernel@.contains(
                short_haystack@[short_haystack@.len() - 2 * staged.1 + k],
            ),
{
    let len: usize = short_haystack.len();
    let staged_len: usize = if len >= 8 {
        8
    } else if len >= 4 {
        4
    } else if len >= 2 {
        2
    } else {
        1
    };
    let block = ends(short_haystack, staged_len);
    let packed: u64 = kernel.matches(level, &block);
    proof {
        assert forall|k: int| 0 <= k < 16 implies #[trigger] bits::bit(packed, k)
            == kernel@.contains(block@[k]) by {
            assert(block@[0 + k] == block@[k]);
        }
    }
    (packed, staged_len)
}

/// [`staged_ends_bits`] with the two ends slid back to the positions they were read from, for
/// a caller that wants every match rather than the first.
fn short_tail_bits<K: Kernel>(level: Level, kernel: &K, short_haystack: &[u8]) -> (window: u64)
    requires
        0 < short_haystack@.len() < 16,
    ensures
        search::marks_window(
            kernel@,
            short_haystack@,
            0,
            short_haystack@.len() as int,
            window,
        ),
{
    let len: usize = short_haystack.len();
    let (packed, staged_len) = staged_ends_bits(level, kernel, short_haystack);
    let window: u64 = bits::slide_ends(packed, staged_len, len);
    proof {
        assert forall|k: int| #[trigger] bits::bit(window, k) == (0 <= k < len && kernel@.contains(
            short_haystack@[0 + k],
        )) by {
            if 0 <= k < staged_len {
                assert(bits::bit(packed, k) == kernel@.contains(short_haystack@[k]));
            }
            if len - staged_len <= k < len {
                let j = k - (len - staged_len) + staged_len;
                assert(bits::bit(packed, j) == kernel@.contains(
                    short_haystack@[len - 2 * staged_len + j],
                ));
            }
        }
    }
    window
}

} // verus!
