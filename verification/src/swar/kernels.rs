//! The tests that a word can be put to.

use crate::bits;
use crate::bitset::ByteRange;
use crate::search::BitsetLookup;
use crate::swar;
use crate::swar::{nonzero_bytes, splat, Kernel, HIGH};
use vstd::prelude::*;

verus! {

/// Compares each byte with up to three needles.
#[derive(Copy, Clone)]
pub struct AnyOf<const N: usize> {
    splatted_needles: [u64; N],
}

impl<const N: usize> View for AnyOf<N> {
    type V = Set<u8>;

    closed spec fn view(&self) -> Set<u8> {
        Set::new(
            |byte: u8|
                exists|j: int|
                    0 <= j < N && bits::lane(#[trigger] self.splatted_needles[j], 0) == byte,
        )
    }
}

impl<const N: usize> AnyOf<N> {
    /// Every needle fills all lanes of its word.
    #[verifier::type_invariant]
    spec fn splatted(self) -> bool {
        forall|j: int, i: int|
            0 <= j < N && 0 <= i < 8 ==> #[trigger] bits::lane(self.splatted_needles[j], i)
                == bits::lane(self.splatted_needles[j], 0)
    }

    /// Builds a kernel that accepts exactly the `needles`.
    pub fn new(needles: [u8; N]) -> (kernel: AnyOf<N>)
        ensures
            kernel@ == needles@.to_set(),
    {
        let mut splatted_needles: [u64; N] = [0; N];
        let mut i: usize = 0;
        while i < N
            invariant
                i <= N,
                forall|j: int, l: int|
                    0 <= j < i && 0 <= l < 8 ==> #[trigger] bits::lane(splatted_needles[j], l)
                        == needles[j],
            decreases N - i,
        {
            splatted_needles[i] = splat(needles[i]);
            i += 1;
        }
        let kernel = AnyOf { splatted_needles };
        proof {
            assert forall|byte: u8| kernel@.contains(byte) == needles@.to_set().contains(byte) by {
                if needles@.contains(byte) {
                    let j = needles@.index_of(byte);
                    assert(bits::lane(splatted_needles[j], 0) == needles[j]);
                }
                if kernel@.contains(byte) {
                    let j = choose|j: int|
                        0 <= j < N && bits::lane(#[trigger] splatted_needles[j], 0) == byte;
                    assert(needles@[j] == byte);
                }
            }
            assert(kernel@ =~= needles@.to_set());
        }
        kernel
    }
}

proof fn lemma_xor_lane(word: u64, needle: u64, i: u64)
    by (bit_vector)
    requires
        i < 8,
    ensures
        (((word ^ needle) >> ((8 * i) as u64)) & 0xff) as u8 == 0 <==> ((word >> ((8 * i) as u64))
            & 0xff) as u8 == ((needle >> ((8 * i) as u64)) & 0xff) as u8,
{
}

proof fn lemma_high_bits(word: u64, i: u64)
    by (bit_vector)
    requires
        i < 8,
    ensures
        (word & 0x8080_8080_8080_8080u64) & !0x8080_8080_8080_8080u64 == 0,
        ((word & 0x8080_8080_8080_8080u64) >> ((8 * i + 7) as u64)) & 1 == (word >> ((8 * i
            + 7) as u64)) & 1,
        ((!word & 0x8080_8080_8080_8080u64) >> ((8 * i + 7) as u64)) & 1 == 1 - ((word >> ((8 * i
            + 7) as u64)) & 1),
{
}

/// Marks the lanes of `word` that agree with that lane of one of `splatted_needles`.
fn any_of_matches<const N: usize>(word: u64, splatted_needles: [u64; N]) -> (marks: u64)
    ensures
        marks & !HIGH == 0,
        forall|i: int|
            0 <= i < 8 ==> #[trigger] bits::bit(marks, 8 * i + 7) == exists|j: int|
                0 <= j < N && bits::lane(#[trigger] splatted_needles[j], i) == bits::lane(word, i),
{
    let mut nonzero: u64 = !0;
    proof {
        bits::lemma_bit_constants();
        assert(!0u64 == u64::MAX) by (bit_vector);
    }
    let mut n: usize = 0;
    while n < N
        invariant
            n <= N,
            forall|i: int|
                0 <= i < 8 ==> #[trigger] bits::bit(nonzero, 8 * i + 7) == forall|j: int|
                    0 <= j < n ==> bits::lane(#[trigger] splatted_needles[j], i) != bits::lane(
                        word,
                        i,
                    ),
        decreases N - n,
    {
        let differs: u64 = nonzero_bytes(word ^ splatted_needles[n]);
        let ghost before = nonzero;
        nonzero = nonzero & differs;
        proof {
            bits::lemma_bit_ops(before, differs);
            assert forall|i: int| 0 <= i < 8 implies #[trigger] bits::bit(nonzero, 8 * i + 7)
                == forall|j: int|
                0 <= j < n + 1 ==> bits::lane(#[trigger] splatted_needles[j], i) != bits::lane(
                    word,
                    i,
                ) by {
                lemma_xor_lane(word, splatted_needles[n as int], i as u64);
                assert(bits::bit(before, 8 * i + 7) == forall|j: int|
                    0 <= j < n ==> bits::lane(#[trigger] splatted_needles[j], i) != bits::lane(
                        word,
                        i,
                    ));
                assert(bits::bit(differs, 8 * i + 7) == (bits::lane(
                    word ^ splatted_needles[n as int],
                    i,
                ) != 0));
            }
        }
        n += 1;
    }
    proof {
        lemma_high_bits(!nonzero, 0);
        assert forall|i: int| 0 <= i < 8 implies #[trigger] bits::bit(!nonzero & HIGH, 8 * i + 7)
            == exists|j: int|
            0 <= j < N && bits::lane(#[trigger] splatted_needles[j], i) == bits::lane(word, i) by {
            lemma_high_bits(nonzero, i as u64);
            assert(bits::bit(nonzero, 8 * i + 7) == forall|j: int|
                0 <= j < N ==> bits::lane(#[trigger] splatted_needles[j], i) != bits::lane(word, i));
        }
    }
    !nonzero & HIGH
}

impl<const N: usize> Kernel for AnyOf<N> {
    fn matches(&self, word: u64) -> (marks: u64) {
        proof {
            use_type_invariant(self);
        }
        let marks: u64 = any_of_matches(word, self.splatted_needles);
        proof {
            assert forall|i: int| 0 <= i < 8 implies #[trigger] bits::bit(marks, 8 * i + 7)
                == self@.contains(bits::lane(word, i)) by {
                assert forall|j: int| 0 <= j < N implies bits::lane(
                    #[trigger] self.splatted_needles[j],
                    i,
                ) == bits::lane(self.splatted_needles[j], 0) by {}
            }
        }
        marks
    }

    fn matches_byte(&self, byte: u8) -> (found: bool) {
        let mut i: usize = 0;
        while i < N
            invariant
                i <= N,
                forall|j: int|
                    0 <= j < i ==> bits::lane(#[trigger] self.splatted_needles[j], 0) != byte,
            decreases N - i,
        {
            let needle: u64 = self.splatted_needles[i];
            proof {
                lemma_low_byte(needle);
            }
            if needle as u8 == byte {
                return true;
            }
            i += 1;
        }
        false
    }
}

proof fn lemma_low_byte(word: u64)
    by (bit_vector)
    ensures
        word as u8 == ((word >> 0u64) & 0xff) as u8,
{
}

/// How far `byte` lies above `start`, counting on from zero past the greatest byte.
pub open spec fn steps_above(byte: u8, start: u8) -> int {
    (byte - start) % 256
}

/// Tests for a range with masks that are computed in advance, without a branch.
#[derive(Copy, Clone)]
pub struct OneRange {
    /// Splatted range start, ready to subtract from a `HIGH`-saturated word.
    start: u64,
    /// Complement of the splatted start, for the subtraction's high-bit fixup.
    not_start: u64,
    /// Splatted low seven bits of the span, saturated with `HIGH` to subtract from.
    span_low: u64,
    /// All ones when the span's high bit is set, all zeros otherwise.
    span_high: u64,
}

impl View for OneRange {
    type V = Set<u8>;

    closed spec fn view(&self) -> Set<u8> {
        Set::new(|byte: u8| steps_above(byte, self.first()) <= self.span())
    }
}

impl OneRange {
    /// The first byte of the range.
    spec fn first(self) -> u8 {
        (!self.not_start) as u8
    }

    /// The distance from the first byte of the range to the last.
    spec fn span(self) -> u8 {
        (self.span_low as u8 & !0x80u8) | (self.span_high as u8 & 0x80)
    }

    /// The masks all describe the one range.
    #[verifier::type_invariant]
    spec fn masks_agree(self) -> bool {
        &&& self.start == ((self.first() * swar::LOW) as u64) & !HIGH
        &&& self.not_start == !((self.first() * swar::LOW) as u64)
        &&& self.span_low == (((self.span() & 0x7F) * swar::LOW) as u64) | HIGH
        &&& self.span_high == if self.span() & 0x80 == 0 {
            0
        } else {
            u64::MAX
        }
    }

    /// Builds a kernel that accepts the bytes from `range.start` up to `range.last`.
    ///
    /// Where the last byte is below the first, these are the bytes from the first one up to the
    /// greatest byte, and from zero up to the last one.
    pub fn new(range: ByteRange) -> (kernel: OneRange)
        ensures
            forall|byte: u8| #[trigger]
                kernel@.contains(byte) <==> steps_above(byte, range.start) <= steps_above(
                    range.last,
                    range.start,
                ),
            range.start <= range.last ==> kernel@ == range@,
    {
        let ByteRange { start, last } = range;
        let span: u8 = last.wrapping_sub(start);
        let splatted: u64 = splat(start);
        proof {
            let high = if span & 0x80 == 0 {
                0
            } else {
                u64::MAX
            };
            lemma_range_masks(start, span, high);
        }
        let kernel = OneRange {
            start: splatted & !HIGH,
            not_start: !splatted,
            span_low: splat(span & 0x7F) | HIGH,
            span_high: if span & 0x80 == 0 {
                0
            } else {
                u64::MAX
            },
        };
        assert(range.start <= range.last ==> kernel@ =~= range@);
        kernel
    }
}

proof fn lemma_range_masks(first: u8, span: u8, span_high: u64)
    by (bit_vector)
    requires
        span_high == if span & 0x80 == 0 {
            0u64
        } else {
            u64::MAX
        },
    ensures
        (!!((first as u64 * 0x0101_0101_0101_0101u64) as u64)) as u8 == first,
        (((((((span & 0x7F) as u64 * 0x0101_0101_0101_0101u64) as u64) | 0x8080_8080_8080_8080u64))
            as u8) & !0x80u8) | (span_high as u8 & 0x80) == span,
{
}

/// The arithmetic of [`OneRange`] on one lane: no subtraction borrows, and bit 7 of the outcome
/// tells whether the lane is in range.
proof fn lemma_range_lane(
    word: u64,
    first: u8,
    span: u8,
    start: u64,
    not_start: u64,
    span_low: u64,
    span_high: u64,
    shifted: u64,
    low_ge: u64,
    clear_high: u64,
    marks: u64,
    i: u64,
)
    by (bit_vector)
    requires
        i < 8,
        start == ((first as u64 * 0x0101_0101_0101_0101u64) as u64) & !0x8080_8080_8080_8080u64,
        not_start == !((first as u64 * 0x0101_0101_0101_0101u64) as u64),
        span_low == (((span & 0x7F) as u64 * 0x0101_0101_0101_0101u64) as u64)
            | 0x8080_8080_8080_8080u64,
        span_high == if span & 0x80 == 0 {
            0u64
        } else {
            u64::MAX
        },
        shifted == (((word | 0x8080_8080_8080_8080u64) - start) as u64) ^ ((word ^ not_start)
            & 0x8080_8080_8080_8080u64),
        low_ge == ((span_low - (shifted & !0x8080_8080_8080_8080u64)) as u64)
            & 0x8080_8080_8080_8080u64,
        clear_high == !shifted & 0x8080_8080_8080_8080u64,
        marks == (clear_high & low_ge) | (span_high & (clear_high | (shifted & low_ge))),
    ensures
        start <= (word | 0x8080_8080_8080_8080u64),
        (shifted & !0x8080_8080_8080_8080u64) <= span_low,
        marks & !0x8080_8080_8080_8080u64 == 0,
        (marks >> ((8 * i + 7) as u64)) & 1 == 1 <==> (((word >> ((8 * i) as u64)) & 0xff) as u8
            + 256 - first) % 256 <= span,
{
}

impl Kernel for OneRange {
    fn matches(&self, word: u64) -> (marks: u64) {
        let ghost (first, span) = (self.first(), self.span());
        let ghost shifted_spec = (((word | HIGH) - self.start) as u64) ^ ((word ^ self.not_start)
            & HIGH);
        let ghost low_ge_spec = ((self.span_low - (shifted_spec & !HIGH)) as u64) & HIGH;
        let ghost clear_high_spec = !shifted_spec & HIGH;
        let ghost marks_spec = (clear_high_spec & low_ge_spec) | (self.span_high & (
        clear_high_spec | (shifted_spec & low_ge_spec)));
        proof {
            use_type_invariant(self);
            assert forall|i: int| 0 <= i < 8 implies #[trigger] bits::bit(marks_spec, 8 * i + 7)
                == self@.contains(bits::lane(word, i)) by {
                lemma_range_lane(
                    word,
                    first,
                    span,
                    self.start,
                    self.not_start,
                    self.span_low,
                    self.span_high,
                    shifted_spec,
                    low_ge_spec,
                    clear_high_spec,
                    marks_spec,
                    i as u64,
                );
                assert((bits::lane(word, i) + 256 - first) % 256 == steps_above(
                    bits::lane(word, i),
                    first,
                ));
            }
            lemma_range_lane(
                word,
                first,
                span,
                self.start,
                self.not_start,
                self.span_low,
                self.span_high,
                shifted_spec,
                low_ge_spec,
                clear_high_spec,
                marks_spec,
                0,
            );
        }
        // A byte is in range when `byte - start` wraps into `0..=span`.
        let shifted: u64 = ((word | HIGH) - self.start) ^ ((word ^ self.not_start) & HIGH);

        // `128 + span_low - shifted_low` stays inside the byte, so bit 7 answers
        // `span_low >= shifted_low` without borrowing into the next lane.
        let low_ge: u64 = (self.span_low - (shifted & !HIGH)) & HIGH;
        let clear_high: u64 = !shifted & HIGH;
        // The span's high bit selects which half of the wrapping byte domain is valid.
        (clear_high & low_ge) | (self.span_high & (clear_high | (shifted & low_ge)))
    }

    fn matches_byte(&self, byte: u8) -> (found: bool) {
        let start: u8 = !self.not_start as u8;
        let span: u8 = (self.span_low as u8 & !0x80) | (self.span_high as u8 & 0x80);
        byte.wrapping_sub(start) <= span
    }
}

/// Accepts every byte but one.
#[derive(Copy, Clone)]
pub struct NotByte {
    splatted_byte: u64,
}

impl View for NotByte {
    type V = Set<u8>;

    closed spec fn view(&self) -> Set<u8> {
        Set::new(|byte: u8| byte != bits::lane(self.splatted_byte, 0))
    }
}

impl NotByte {
    /// The excluded byte fills all lanes of its word.
    #[verifier::type_invariant]
    spec fn splatted(self) -> bool {
        forall|i: int|
            0 <= i < 8 ==> #[trigger] bits::lane(self.splatted_byte, i) == bits::lane(
                self.splatted_byte,
                0,
            )
    }

    /// Builds a kernel that accepts every byte except `byte`.
    pub fn new(byte: u8) -> (kernel: NotByte)
        ensures
            kernel@ == set![byte].complement(),
    {
        let kernel = NotByte { splatted_byte: splat(byte) };
        assert(kernel@ =~= set![byte].complement());
        kernel
    }
}

impl Kernel for NotByte {
    fn matches(&self, word: u64) -> (marks: u64) {
        let differs: u64 = nonzero_bytes(word ^ self.splatted_byte);
        proof {
            use_type_invariant(self);
            lemma_high_bits(differs, 0);
            assert forall|i: int| 0 <= i < 8 implies #[trigger] bits::bit(
                differs & HIGH,
                8 * i + 7,
            ) == self@.contains(bits::lane(word, i)) by {
                lemma_high_bits(differs, i as u64);
                lemma_xor_lane(word, self.splatted_byte, i as u64);
                assert(bits::bit(differs, 8 * i + 7) == (bits::lane(word ^ self.splatted_byte, i)
                    != 0));
                assert(bits::lane(self.splatted_byte, i) == bits::lane(self.splatted_byte, 0));
            }
        }
        differs & HIGH
    }

    fn matches_byte(&self, byte: u8) -> (found: bool) {
        proof {
            lemma_low_byte(self.splatted_byte);
        }
        byte != self.splatted_byte as u8
    }
}

/// Setting bit 7 of lane `i` changes that bit and no other.
pub proof fn lemma_mark_lane(marks: u64, i: u64, j: u64)
    by (bit_vector)
    requires
        i < 8,
        j < 8,
        marks & !0x8080_8080_8080_8080u64 == 0,
    ensures
        (marks | 1u64 << ((i * 8 + 7) as u64)) & !0x8080_8080_8080_8080u64 == 0,
        ((marks | 1u64 << ((i * 8 + 7) as u64)) >> ((8 * j + 7) as u64)) & 1 == 1 <==> (i == j || (
        marks >> ((8 * j + 7) as u64)) & 1 == 1),
{
}

/// Lane `i` of a word is what is left of it when it is shifted down and cut to a byte.
pub proof fn lemma_lane_byte(word: u64, i: u64)
    by (bit_vector)
    requires
        i < 8,
    ensures
        (word >> ((8 * i) as u64)) as u8 == ((word >> ((8 * i) as u64)) & 0xff) as u8,
{
}

impl Kernel for BitsetLookup {
    fn matches(&self, word: u64) -> (marks: u64) {
        let mut marks: u64 = 0;
        proof {
            bits::lemma_bit_constants();
            bits::lemma_or_zero(!HIGH, 0);
        }
        let mut i: u64 = 0;
        while i < 8
            invariant
                i <= 8,
                marks & !HIGH == 0,
                forall|j: int|
                    0 <= j < 8 ==> #[trigger] bits::bit(marks, 8 * j + 7) == (j < i
                        && self@.contains(bits::lane(word, j))),
            decreases 8 - i,
        {
            let byte: u8 = (word >> (8 * i)) as u8;
            proof {
                lemma_lane_byte(word, i);
            }
            if self.matches_byte(byte) {
                let ghost before = marks;
                marks = marks | 1u64 << (i * 8 + 7);
                proof {
                    lemma_mark_lane(before, i, 0);
                    assert forall|j: int| 0 <= j < 8 implies #[trigger] bits::bit(marks, 8 * j + 7)
                        == (i == j || bits::bit(before, 8 * j + 7)) by {
                        lemma_mark_lane(before, i, j as u64);
                    }
                }
            }
            i += 1;
        }
        marks
    }

    fn matches_byte(&self, byte: u8) -> (found: bool) {
        self.contains(byte)
    }
}

} // verus!
