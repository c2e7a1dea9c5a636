//! What a search answers: the offsets of a haystack's bytes that belong to a set.

use crate::bits;
use crate::bitset::ByteSet;
use vstd::prelude::*;
use vstd::std_specs::bits::*;

verus! {

/// One bit for each byte of a batch, set where the byte matches.
pub type MatchedBitset = u128;

/// Holds at the offsets of `haystack` whose bytes belong to `set`.
pub open spec fn hits(set: Set<u8>, haystack: Seq<u8>) -> spec_fn(int) -> bool {
    |i: int| set.contains(haystack[i])
}

/// The offsets of the bytes of `haystack` that belong to `set`, in ascending order.
pub open spec fn match_offsets(set: Set<u8>, haystack: Seq<u8>) -> Seq<usize> {
    bits::positions(hits(set, haystack), 0, haystack.len() as int)
}

/// Whether none of the bytes of `haystack` at `lo..hi` belongs to `set`.
pub open spec fn no_match(set: Set<u8>, haystack: Seq<u8>, lo: int, hi: int) -> bool {
    forall|i: int| lo <= i < hi ==> !set.contains(#[trigger] haystack[i])
}

/// Whether `found` names the first byte of `haystack` that belongs to `set`, or is `None` because
/// there is no such byte.
pub open spec fn is_first_match(set: Set<u8>, haystack: Seq<u8>, found: Option<usize>) -> bool {
    match found {
        Some(at) => at < haystack.len() && set.contains(haystack[at as int]) && no_match(
            set,
            haystack,
            0,
            at as int,
        ),
        None => no_match(set, haystack, 0, haystack.len() as int),
    }
}

/// Whether the bits of `word` mark the members of `set` among the `len` bytes of `haystack` that
/// start at `base`, and nothing else.
pub open spec fn marks_window(
    set: Set<u8>,
    haystack: Seq<u8>,
    base: int,
    len: int,
    word: u64,
) -> bool {
    forall|k: int| #[trigger] bits::bit(word, k) == (0 <= k < len && set.contains(haystack[base + k]))
}

/// Window bits are zero exactly when nothing in the window matches; otherwise the lowest of them
/// stands for the first match.
pub proof fn lemma_window_first(set: Set<u8>, haystack: Seq<u8>, base: int, len: int, word: u64)
    requires
        0 <= base,
        0 <= len <= 64,
        base + len <= haystack.len(),
        marks_window(set, haystack, base, len, word),
    ensures
        word == 0 <==> no_match(set, haystack, base, base + len),
        word != 0 ==> {
            let first = u64_trailing_zeros(word) as int;
            &&& 0 <= first < len
            &&& set.contains(haystack[base + first])
            &&& no_match(set, haystack, base, base + first)
        },
{
    bits::lemma_zero_bits(word);
    if word == 0 {
        assert forall|i: int| base <= i < base + len implies !set.contains(#[trigger] haystack[i]) by {
            assert(!bits::bit(word, i - base));
        }
    } else {
        bits::lemma_lowest_bit(word);
        let first = u64_trailing_zeros(word) as int;
        assert(set.contains(haystack[base + first]));
        assert forall|i: int| base <= i < base + first implies !set.contains(
            #[trigger] haystack[i],
        ) by {
            assert(!bits::bit(word, i - base));
        }
    }
}

/// There are as many ones among window bits as there are matches in the window.
pub proof fn lemma_window_count(set: Set<u8>, haystack: Seq<u8>, base: int, len: int, word: u64)
    requires
        0 <= len <= 64,
        marks_window(set, haystack, base, len, word),
    ensures
        bits::count(bits::bits_of(word), 0, 64) == bits::count(
            hits(set, haystack),
            base,
            base + len,
        ),
{
    let ones = bits::bits_of(word);
    bits::lemma_positions_split(ones, 0, len, 64);
    bits::lemma_positions_none(ones, len, 64);
    bits::lemma_count_shift(hits(set, haystack), ones, base, 0, len);
}

/// The bits of a batch that holds a match are not all zero.
pub proof fn lemma_batch_not_empty(
    set: Set<u8>,
    haystack: Seq<u8>,
    base: int,
    len: int,
    matched: MatchedBitset,
)
    requires
        !no_match(set, haystack, base, base + len),
        forall|k: int| #[trigger]
            bits::bit128(matched, k) == (0 <= k < len && set.contains(haystack[base + k])),
    ensures
        matched != 0,
{
    let at = choose|i: int| base <= i < base + len && set.contains(#[trigger] haystack[i]);
    assert(haystack[base + (at - base)] == haystack[at]);
    assert(bits::bit128(matched, at - base));
    bits::lemma_wide_bits(0, 0);
}

/// A haystack and the window of it covered by the current match batch.
///
/// The batch spans `match_base..scan_offset`, which is never wider than a [`MatchedBitset`], so
/// any offset below `scan_offset` is reachable as a shift of the bitset.
#[derive(Copy, Clone, Debug)]
pub struct IterState<'a> {
    /// The bytes to search.
    pub haystack: &'a [u8],
    /// The end of the batch: everything below it has been scanned.
    pub scan_offset: usize,
    /// The offset that the lowest bit of the batch stands for.
    pub match_base: usize,
}

/// Whether `after` and `matched` are what scanning on from `before` gives.
///
/// The scan skips only bytes that do not match, and each bit of the batch says whether its byte
/// matches. An empty batch means that the whole haystack has been scanned; until then every scan
/// moves forward.
pub open spec fn is_next_batch(
    set: Set<u8>,
    before: IterState,
    after: IterState,
    matched: MatchedBitset,
) -> bool {
    let haystack = before.haystack@;
    let (base, end) = (after.match_base, after.scan_offset);
    &&& after.haystack == before.haystack
    &&& before.scan_offset <= base <= end <= haystack.len()
    &&& end - base <= 128
    &&& no_match(set, haystack, before.scan_offset as int, base as int)
    &&& forall|k: int| #[trigger]
        bits::bit128(matched, k) == (0 <= k < end - base && set.contains(haystack[base + k]))
    &&& matched == 0 ==> end == haystack.len()
    &&& before.scan_offset < haystack.len() ==> before.scan_offset < end
}

/// Lists the offsets of the bytes of `haystack` that belong to `set`, testing one byte after the
/// other.
pub fn scan_offsets(set: &ByteSet, haystack: &[u8]) -> (offsets: Vec<usize>)
    ensures
        offsets@ == match_offsets(set@, haystack@),
{
    let mut offsets: Vec<usize> = Vec::new();
    let len: usize = haystack.len();
    let ghost matching = hits(set@, haystack@);
    let mut at: usize = 0;
    while at < len
        invariant
            at <= len == haystack@.len(),
            matching == hits(set@, haystack@),
            offsets@ == bits::positions(matching, 0, at as int),
        decreases len - at,
    {
        proof {
            bits::lemma_positions_split(matching, 0, at as int, at + 1);
            assert(bits::positions(matching, at + 1, at + 1) =~= Seq::empty());
        }
        if set.contains(haystack[at]) {
            offsets.push(at);
        }
        assert(offsets@ =~= bits::positions(matching, 0, at + 1));
        at += 1;
    }
    offsets
}

/// Looks bytes up in a membership table, which works for any set.
#[derive(Copy, Clone)]
pub struct BitsetLookup {
    byte_set: ByteSet,
}

impl View for BitsetLookup {
    type V = Set<u8>;

    closed spec fn view(&self) -> Set<u8> {
        self.byte_set@
    }
}

impl BitsetLookup {
    /// Builds a kernel that accepts the members of `byte_set`.
    pub fn new(byte_set: ByteSet) -> (kernel: BitsetLookup)
        ensures
            kernel@ == byte_set@,
    {
        BitsetLookup { byte_set }
    }

    /// Whether the set holds `byte`.
    pub fn contains(&self, byte: u8) -> (found: bool)
        ensures
            found == self@.contains(byte),
    {
        self.byte_set.contains(byte)
    }

    /// The set that the kernel looks bytes up in.
    pub fn byte_set(&self) -> (set: &ByteSet)
        ensures
            set@ == self@,
    {
        &self.byte_set
    }
}

} // verus!
