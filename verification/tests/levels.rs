use fearless_simd::Level;
use memchr_n::bitset::ByteRange;
use memchr_n::engine::{detected_engine, Engine};
use memchr_n::nibbles::{extract_fixed_nibble_table, extract_nibble_lookups};
use memchr_n::plan::KernelKind;
use memchr_n::search::{scan_offsets, BitsetLookup};
use memchr_n::vector::kernels::{AnyOf, FixedNibbleSet, NotByte, OneRange, SmallSet};
use memchr_n::vector::{has_byte_shuffle, Kernel};
use memchr_n::{Backend, ByteSet, MemchrN};

/// Every level that this machine can run.
fn levels() -> Vec<Level> {
    let best = Level::new();
    let mut levels = vec![Level::fallback(), Level::baseline(), best];
    if let Some(token) = best.as_sse4_2() {
        levels.push(Level::Sse4_2(token));
    }
    if let Some(token) = best.as_avx2() {
        levels.push(Level::Avx2(token));
    }
    levels
}

/// Sets that between them reach every kernel.
fn sets() -> Vec<ByteSet> {
    let mut sets = vec![
        ByteSet::new(),
        ByteSet::from_bytes(b"x"),
        ByteSet::from_bytes(b"xy"),
        ByteSet::from_bytes(b"xyz"),
        ByteSet::from_range(b'0'..=b'9'),
        ByteSet::from_range(100..=200),
        ByteSet::full(),
        ByteSet::from_bytes(&[0x03, 0x23, 0x53, 0xA3]),
        ByteSet::from_bytes(&[0x51, 0x53, 0x56, 0x5F]),
        ByteSet::from_bytes(b"aeiouAEI"),
        ByteSet::from_iter((0..=255u8).step_by(3)),
        ByteSet::from_iter((0..16u8).map(|nibble| nibble << 4 | nibble)),
    ];
    let mut all_but_one = ByteSet::full();
    all_but_one.remove(b'q');
    sets.push(all_but_one);
    sets
}

/// Checks a kernel against a set in every lane of every width.
fn assert_lanes<K: Kernel>(kernel: &K, set: &ByteSet, case: &str) {
    for level in levels() {
        for first in 0..=255u8 {
            let byte = |lane: usize| first.wrapping_add((lane * 7) as u8);
            let (mut narrow, mut middle, mut wide) = ([0u8; 16], [0u8; 32], [0u8; 64]);
            for lane in 0..64 {
                if lane < 16 {
                    narrow[lane] = byte(lane);
                }
                if lane < 32 {
                    middle[lane] = byte(lane);
                }
                wide[lane] = byte(lane);
            }
            let expected = |width: usize| {
                let mut mask = 0u64;
                for lane in 0..width {
                    mask |= u64::from(set.contains(byte(lane))) << lane;
                }
                mask
            };
            assert_eq!(kernel.matches(level, &narrow), expected(16), "{case} {level:?}");
            assert_eq!(kernel.matches(level, &middle), expected(32), "{case} {level:?}");
            assert_eq!(kernel.matches(level, &wide), expected(64), "{case} {level:?}");
            assert_eq!(kernel.matches_byte(first), set.contains(first), "{case}");
        }
    }
}

#[test]
fn comparing_kernels_agree_with_their_sets_in_every_lane() {
    assert_lanes(&AnyOf::new([7]), &ByteSet::from_bytes(&[7]), "one needle");
    assert_lanes(
        &AnyOf::new([7, 0, 255]),
        &ByteSet::from_bytes(&[0, 7, 255]),
        "three needles",
    );
    let mut not_seven = ByteSet::full();
    not_seven.remove(7);
    assert_lanes(&NotByte::new(7), &not_seven, "all but one");
    for (start, last) in [(0, 0), (10, 200), (0x7F, 0x80), (0, 255), (9, 8)] {
        assert_lanes(
            &OneRange::new(ByteRange { start, last }),
            &ByteSet::from_range(start..=last),
            "range",
        );
    }
}

#[test]
fn shuffling_kernels_agree_with_their_sets_in_every_lane() {
    let groups = ByteSet::from_bytes(&[0x12, 0x13, 0xA2, 0xA3, 0xB3, 0xB4]);
    let (lo_lookup, hi_lookup) = extract_nibble_lookups(&groups).unwrap();
    assert_lanes(&SmallSet::new(lo_lookup, hi_lookup), &groups, "groups");

    for items in [[0x03u8, 0x23, 0x53, 0xA3], [0x50, 0x53, 0x56, 0x5F], [0x00, 0x10, 0x20, 0xF0]] {
        let table = extract_fixed_nibble_table(&items).unwrap();
        assert_lanes(&FixedNibbleSet::new(table), &ByteSet::from_bytes(&items), "fixed nibble");
    }

    let thirds = ByteSet::from_iter((0..=255u8).step_by(3));
    assert_lanes(&BitsetLookup::new(thirds), &thirds, "table");
}

#[test]
fn every_level_finds_the_same_matches() {
    for set in sets() {
        for len in [0, 1, 2, 3, 5, 8, 15, 16, 17, 31, 33, 63, 64, 65, 127, 128, 130, 200, 400] {
            let haystack: Vec<u8> = (0..len).map(|i: usize| (i * 37 + i / 7) as u8).collect();
            let expected = scan_offsets(&set, &haystack);
            for level in levels() {
                for engine in [Engine::Vector(level), Engine::Swar] {
                    let finder = MemchrN::from_byte_set_with_engine(set, engine);
                    assert_eq!(finder.find(&haystack), expected.first().copied());
                    assert_eq!(finder.iter(&haystack).collect::<Vec<_>>(), expected);
                    assert_eq!(finder.iter(&haystack).count(), expected.len());
                }
            }
        }
    }
}

#[test]
fn levels_from_sse4_2_on_shuffle_bytes() {
    assert!(!has_byte_shuffle(Level::fallback()));
    for level in levels() {
        let expected = !matches!(level, Level::Fallback(_) | Level::Sse2(_));
        assert_eq!(has_byte_shuffle(level), expected, "{level:?}");
        let engine = Engine::Vector(level).with_byte_shuffle();
        assert_eq!(matches!(engine, Engine::Vector(_)), expected, "{level:?}");
    }
    assert!(matches!(Engine::Swar.with_byte_shuffle(), Engine::Swar));
}

#[test]
fn the_fallback_level_is_left_to_words() {
    assert!(matches!(detected_engine(Level::fallback()), Engine::Swar));
    assert!(matches!(detected_engine(Level::baseline()), Engine::Vector(_)));
    assert!(matches!(Backend::default(), Backend::Auto));
    assert!(matches!(Backend::Swar.engine(), Engine::Swar));
}

#[test]
fn tables_are_not_looked_up_by_vectors_that_cannot_shuffle() {
    // The diagonal of the nibble matrix has too many rows and columns to group.
    let diagonal = ByteSet::from_iter((0..16u8).map(|nibble| nibble << 4 | nibble));
    for level in levels() {
        let finder = MemchrN::from_byte_set_with_engine(diagonal, Engine::Vector(level));
        assert!(matches!(finder.plan().kernel_kind(), KernelKind::BitsetLookup));
        assert_eq!(
            matches!(finder.plan().engine(), Engine::Vector(_)),
            has_byte_shuffle(level)
        );
        let vowels = ByteSet::from_bytes(b"aeiouAEI");
        let finder = MemchrN::from_byte_set_with_engine(vowels, Engine::Vector(level));
        assert_eq!(
            matches!(finder.plan().kernel_kind(), KernelKind::SmallSet),
            has_byte_shuffle(level)
        );
    }
}

#[test]
fn diagnostics_name_engine_and_kernel() {
    for level in levels() {
        let finder = MemchrN::new_with_backend(b"az", Backend::Level(level));
        assert_eq!(
            finder.debug_string(),
            format!("MemchrN {{ engine: Vector({level:?}), kernel_kind: TwoBytes, .. }}")
        );
        assert_eq!(format!("{finder:?}"), finder.debug_string());
    }
    assert_eq!(
        MemchrN::new_with_backend(b"", Backend::Swar).debug_string(),
        "MemchrN { engine: Swar, kernel_kind: Never, .. }"
    );
    for (bytes, kind) in [(&b"a"[..], "OneByte"), (b"abc", "ThreeBytes"), (b"abcd", "OneRange")] {
        assert_eq!(
            MemchrN::new_with_backend(bytes, Backend::Swar).debug_string(),
            format!("MemchrN {{ engine: Swar, kernel_kind: {kind}, .. }}")
        );
    }
}
