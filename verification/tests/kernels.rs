use memchr_n::bitset::ByteRange;
use memchr_n::bytewise::kernels::AnyByte;
use memchr_n::search::BitsetLookup;
use memchr_n::swar::kernels::{AnyOf, OneRange};
use memchr_n::swar::{movemask, Kernel, HIGH, WORD_BYTES};
use memchr_n::ByteSet;

fn assert_marks<K: Kernel>(kernel: &K, bytes: [u8; WORD_BYTES], accepts: impl Fn(u8) -> bool) {
    let marks = kernel.matches(u64::from_le_bytes(bytes));
    assert_eq!(marks & !HIGH, 0, "scratch bits left set for {bytes:?}");
    for (i, &byte) in bytes.iter().enumerate() {
        let got = marks & (0x80 << (i * 8)) != 0;
        assert_eq!(got, accepts(byte), "lane {i} of {bytes:?}");
    }
}

// Adjacent zeros and ones expose cross-lane borrows.
fn hazardous_words(byte: u8) -> [[u8; WORD_BYTES]; 3] {
    [
        [byte; WORD_BYTES],
        core::array::from_fn(|i| if i % 2 == 0 { byte } else { 0 }),
        core::array::from_fn(|i| if i % 2 == 0 { byte } else { 1 }),
    ]
}

#[test]
fn any_of_marks_exactly_the_matching_bytes() {
    for needle in 0..=u8::MAX {
        let kernel = AnyOf::new([needle]);
        for byte in 0..=u8::MAX {
            for bytes in hazardous_words(byte) {
                assert_marks(&kernel, bytes, |b| b == needle);
            }
        }
    }
}

#[test]
fn any_of_handles_several_needles() {
    let kernel = AnyOf::new([0x00, 0x41, 0xFF]);
    for byte in 0..=u8::MAX {
        for bytes in hazardous_words(byte) {
            assert_marks(&kernel, bytes, |b| b == 0x00 || b == 0x41 || b == 0xFF);
        }
    }
}

#[test]
fn range_marks_boundaries_of_every_range() {
    for start in 0..=u8::MAX {
        for last in start..=u8::MAX {
            let kernel = OneRange::new(ByteRange { start, last });
            let probes = [
                0,
                start.wrapping_sub(1),
                start,
                start.wrapping_add(1),
                last.wrapping_sub(1),
                last,
                last.wrapping_add(1),
                u8::MAX,
            ];
            assert_marks(&kernel, probes, |b| start <= b && b <= last);
        }
    }
}

#[test]
fn range_marks_every_byte_of_awkward_ranges() {
    // Covers both sides of the high-bit split.
    let ranges = [(0, 9), (0x80, 0xFF), (0, 0xFF), (0x7F, 0x81), (0x41, 0x41)];
    for (start, last) in ranges {
        let kernel = OneRange::new(ByteRange { start, last });
        for byte in 0..=u8::MAX {
            for bytes in hazardous_words(byte) {
                assert_marks(&kernel, bytes, |b| start <= b && b <= last);
            }
        }
    }
}

#[test]
fn any_byte_accepts_exactly_the_set() {
    let sets: [Vec<u8>; 4] = [
        Vec::new(),
        vec![0x41],
        (0..=u8::MAX).step_by(3).collect(),
        (0x80..=u8::MAX).collect(),
    ];
    for set in sets {
        let kernel = BitsetLookup::new(ByteSet::from_bytes(&set));
        for byte in 0..=u8::MAX {
            assert_eq!(
                kernel.matches_byte(byte),
                set.contains(&byte),
                "{byte} in {set:?}"
            );
        }
    }
}

#[test]
fn movemask_gathers_high_bits() {
    for expected in 0..256u64 {
        let mut marks = 0;
        for i in 0..WORD_BYTES {
            marks |= ((expected >> i) & 1) << (i * 8 + 7);
        }
        assert_eq!(movemask(marks), expected, "marks {marks:#018x}");
    }
}

#[test]
fn kernels_any_byte_accepts_exactly_the_set() {
    let sets: [Vec<u8>; 4] = [
        Vec::new(),
        vec![0x41],
        (0..=u8::MAX).step_by(3).collect(),
        (0x80..=u8::MAX).collect(),
    ];
    for set in sets {
        let kernel = AnyByte::new(ByteSet::from_bytes(&set));
        for byte in 0..=u8::MAX {
            assert_eq!(
                memchr_n::bytewise::Kernel::matches(&kernel, byte),
                set.contains(&byte),
                "{byte} in {set:?}"
            );
        }
    }
}
