use core::ops::{Bound, RangeBounds};
use fearless_simd::Level;
use memchr_n::bitset::ByteRange;
use memchr_n::engine::Engine;
use memchr_n::nibbles::{extract_nibble_lookups, group_nibbles_by_mask};
use memchr_n::vector::has_byte_shuffle;
use memchr_n::{Backend, ByteSet, MemchrN};

fn bounds(range: impl RangeBounds<u8>) -> (Bound<u8>, Bound<u8>) {
    (range.start_bound().cloned(), range.end_bound().cloned())
}

// Construction is cheap enough to use per search, so keep the value within one cache line.
#[test]
fn memchr_n_stays_small() {
    assert!(
        std::mem::size_of::<MemchrN>() <= 64,
        "MemchrN is {} bytes",
        std::mem::size_of::<MemchrN>()
    );
}

#[test]
fn debug_names_the_chosen_kernel() {
    let debug = format!("{:?}", MemchrN::new(b"az"));
    assert!(debug.contains("TwoBytes"), "{debug}");
}

fn assert_nibble_lookups_match(set: &[u8]) {
    let (lo_lookup, hi_lookup) = extract_nibble_lookups(&ByteSet::from_bytes(set))
        .expect("the set should fit in eight nibble groups");
    for byte in 0..=u8::MAX {
        let matched =
            lo_lookup.0[usize::from(byte & 0x0F)] & hi_lookup.0[usize::from(byte >> 4)] != 0;
        assert_eq!(matched, set.contains(&byte), "byte {byte:#04x} in {set:?}");
    }
}

#[test]
fn nibble_lookups_admit_exactly_their_set() {
    for set in [
        &[][..],
        &[0xFF],
        &[0x12, 0x13, 0xA2, 0xA3],
        &[0x12, 0x13, 0xA2, 0xA3, 0xB3, 0xB4],
    ] {
        assert_nibble_lookups_match(set);
    }
}

// Diagonal entries cannot share a group without also matching off-diagonal bytes.
const DIAGONAL_SET: [u8; 9] = [0x77, 0x88, 0x99, 0xAA, 0xBB, 0xCC, 0xDD, 0xEE, 0xFF];

#[test]
fn nibble_lookups_respect_the_eight_group_limit() {
    assert_nibble_lookups_match(&DIAGONAL_SET[1..]);

    let byte_set = ByteSet::from_bytes(&DIAGONAL_SET);
    assert!(extract_nibble_lookups(&byte_set).is_none());
    let debug = format!("{:?}", MemchrN::from_byte_set_with_backend(byte_set, Backend::Auto));
    assert!(debug.contains("BitsetLookup"), "{debug}");
}

// Column lo contains rows {lo, lo + 1}, giving eight columns but nine distinct rows.
fn column_grouped_set() -> Vec<u8> {
    let mut set = Vec::new();
    for lo in 0..8u8 {
        set.push((lo << 4) | lo);
        set.push(((lo + 1) << 4) | lo);
    }
    set
}

#[test]
fn nibble_lookups_try_columns_when_rows_exceed_eight_groups() {
    let set = column_grouped_set();
    let byte_set = ByteSet::from_bytes(&set);
    assert!(group_nibbles_by_mask(&byte_set.nibble_rows()).is_none());
    assert_nibble_lookups_match(&set);
}

fn shuffling_vector_engine() -> bool {
    match Backend::Auto.engine() {
        Engine::Vector(level) => has_byte_shuffle(level),
        Engine::Swar => false,
    }
}

#[test]
fn character_classes_use_the_small_set_kernel() {
    for (name, set) in character_classes() {
        assert_nibble_lookups_match(&set);
        if shuffling_vector_engine() {
            let debug = format!("{:?}", MemchrN::new(&set));
            assert!(debug.contains("SmallSet"), "{name}: {debug}");
        }
    }
}

#[test]
fn a_shared_nibble_prefers_the_fixed_nibble_kernel() {
    if !shuffling_vector_engine() {
        return;
    }
    // Both kernels accept these sets; FixedNibble needs one lookup instead of two.
    for set in [[0x03, 0x23, 0x53, 0xA3], [0x51, 0x53, 0x56, 0x5F]] {
        let debug = format!("{:?}", MemchrN::new(&set));
        assert!(debug.contains("FixedNibble"), "{set:?}: {debug}");
    }
}

#[test]
fn auto_uses_swar_when_simd_is_unavailable() {
    for finder in [
        MemchrN::new(b"x"),
        MemchrN::new(b"xy"),
        MemchrN::new(b"xyz"),
        MemchrN::from_range(bounds(b'0'..=b'9')),
        MemchrN::from_not_byte(b'.'),
    ] {
        let uses_swar = match finder.plan().engine() {
            Engine::Swar => true,
            Engine::Vector(level) => {
                assert!(!level.is_fallback());
                false
            }
        };
        assert_eq!(uses_swar, Level::new().is_fallback());
    }
}

#[test]
fn explicit_level_preserves_the_vector_engine() {
    let level = Level::baseline();
    let finder = MemchrN::new_with_backend(b"x", Backend::Level(level));
    match finder.plan().engine() {
        Engine::Vector(selected) => assert_eq!(selected.is_fallback(), level.is_fallback()),
        Engine::Swar => panic!("explicit SIMD level was replaced with SWAR"),
    }
}

#[test]
fn from_range_accepts_inclusive_exclusive_and_unbounded_bounds() {
    let haystack = [0, 1, 2, 3, 254, 255];

    fn offsets(range: impl RangeBounds<u8>, haystack: &[u8]) -> Vec<usize> {
        let finder = MemchrN::from_range(bounds(range));
        let mut offsets = Vec::new();
        for offset in finder.iter(haystack) {
            offsets.push(offset);
        }
        offsets
    }

    assert_eq!(offsets(.., &haystack), vec![0, 1, 2, 3, 4, 5]);
    assert_eq!(offsets(..3, &haystack), vec![0, 1, 2]);
    assert_eq!(offsets(1..3, &haystack), vec![1, 2]);
    assert_eq!(offsets(1..=3, &haystack), vec![1, 2, 3]);
    assert_eq!(offsets(254.., &haystack), vec![4, 5]);
}

#[test]
fn range_matches_single_bytes_across_both_bounds() {
    for backend in [Backend::Auto, Backend::Swar] {
        for (start, last) in [(b'0', b'9'), (0, 127), (127, 130), (128, 255), (0, 255)] {
            let searcher = MemchrN::from_range_with_backend(bounds(start..=last), backend);
            for byte in 0..=u8::MAX {
                let expected = start <= byte && byte <= last;
                let haystack = [byte];
                assert_eq!(searcher.find(&haystack), expected.then_some(0));
                assert_eq!(searcher.iter(&haystack).next(), expected.then_some(0));
                assert_eq!(searcher.iter(&haystack).count(), usize::from(expected));
            }
        }
    }
}

#[test]
fn from_range_treats_bounds_outside_the_byte_domain_as_empty() {
    let haystack = [0, 1, 254, 255];
    let past_max = (Bound::Excluded(u8::MAX), Bound::Unbounded);
    let before_min = (Bound::Unbounded, Bound::Excluded(u8::MIN));

    for range in [past_max, before_min] {
        assert_eq!(MemchrN::from_range(bounds(range)).find(&haystack), None);
    }
    assert_eq!(MemchrN::from_range(bounds(3..3)).find(&haystack), None);
    assert_eq!(
        MemchrN::from_range_with_backend(bounds(..0), Backend::Swar).find(&haystack),
        None
    );
}

#[test]
fn add_byte_range_matches_adding_each_byte() {
    for start in 0..=u8::MAX {
        for last in start..=u8::MAX {
            let mut ranged = ByteSet::new();
            ranged.add_byte_range(ByteRange { start, last });

            let mut one_at_a_time = ByteSet::new();
            for byte in start..=last {
                one_at_a_time.add(byte);
            }

            assert_eq!(ranged, one_at_a_time, "{start}..={last}");
        }
    }
}

#[test]
fn add_byte_range_of_empty_range_adds_nothing() {
    let mut set = ByteSet::from_bytes(b"abc");
    let before = set;
    set.add_byte_range(ByteRange { start: 10, last: 9 });
    assert_eq!(set, before);
}

fn members(set: &ByteSet) -> Vec<u8> {
    let all: Vec<u8> = (0..=u8::MAX).collect();
    MemchrN::from_byte_set_with_backend(*set, Backend::Auto)
        .iter(&all)
        .map(|offset| all[offset])
        .collect()
}

fn assert_same_set_and_kernel(bulk: &ByteSet, one_at_a_time: &ByteSet, case: &str) {
    // Equal members alone would miss representation-selection regressions.
    assert_eq!(members(bulk), members(one_at_a_time), "{case}");
    for backend in [Backend::Auto, Backend::Swar] {
        assert_eq!(
            format!("{:?}", MemchrN::from_byte_set_with_backend(*bulk, backend)),
            format!("{:?}", MemchrN::from_byte_set_with_backend(*one_at_a_time, backend)),
            "{case} on {backend:?}"
        );
    }
}

#[test]
fn from_bytes_matches_adding_each_byte() {
    let alnum: Vec<u8> = (b'0'..=b'9')
        .chain(b'a'..=b'z')
        .chain(b'A'..=b'Z')
        .collect();
    let mut contiguous_out_of_order: Vec<u8> = (0..=23).collect();
    contiguous_out_of_order.push(100);
    contiguous_out_of_order.extend(24..=99);

    let cases: &[(&str, Vec<u8>)] = &[
        ("62 alnum, scattered", alnum),
        ("0..=200 contiguous", (0..=200).collect()),
        ("every byte", (0..=u8::MAX).collect()),
        ("60 bytes, 3 distinct", b"cba".repeat(20)),
        ("60 bytes, 1 distinct", b"z".repeat(60)),
        ("100 bytes, 24 distinct", (0..100).map(|i| i % 24).collect()),
        ("100 bytes, 25 distinct", (0..100).map(|i| i % 25).collect()),
        ("contiguous, out of order", contiguous_out_of_order),
        (
            "25 scattered",
            (0..25).map(|i: u8| i.wrapping_mul(7)).collect(),
        ),
        ("one past the members a kernel can name", (0..17).collect()),
    ];

    for (case, bytes) in cases {
        let mut one_at_a_time = ByteSet::new();
        for &byte in bytes {
            one_at_a_time.add(byte);
        }
        assert_same_set_and_kernel(&ByteSet::from_bytes(bytes), &one_at_a_time, case);
    }
}

#[test]
fn add_wide_range_to_non_empty_matches_adding_each_byte() {
    let seeds: &[&[u8]] = &[b"", b"z", b"\x00", b"\x7f", b"az", b"\x00\xff", b"aeiouAEI"];
    for seed in seeds {
        for (start, last) in [(0u8, 255u8), (0x80, 0xFF), (10, 40), (100, 124), (60, 200)] {
            let mut ranged = ByteSet::from_bytes(seed);
            ranged.add_byte_range(ByteRange { start, last });

            let mut one_at_a_time = ByteSet::from_bytes(seed);
            for byte in start..=last {
                one_at_a_time.add(byte);
            }
            let case = format!("{seed:?} + {start}..={last}");
            assert_same_set_and_kernel(&ranged, &one_at_a_time, &case);
        }
    }
}

#[test]
fn add_two_byte_ranges_matches_adding_each_byte() {
    // Includes bitset word boundaries and both ends of the byte domain.
    let bounds = [0u8, 1, 7, 23, 24, 25, 63, 64, 127, 128, 200, 254, 255];
    for &first_start in &bounds {
        for &first_last in bounds.iter().filter(|&&b| b >= first_start) {
            for &second_start in &bounds {
                for &second_last in bounds.iter().filter(|&&b| b >= second_start) {
                    let mut ranged = ByteSet::new();
                    ranged.add_byte_range(ByteRange {
                        start: first_start,
                        last: first_last,
                    });
                    ranged.add_byte_range(ByteRange {
                        start: second_start,
                        last: second_last,
                    });

                    let mut one_at_a_time = ByteSet::new();
                    for byte in first_start..=first_last {
                        one_at_a_time.add(byte);
                    }
                    for byte in second_start..=second_last {
                        one_at_a_time.add(byte);
                    }

                    assert_eq!(
                        ranged, one_at_a_time,
                        "{first_start}..={first_last} then {second_start}..={second_last}"
                    );
                }
            }
        }
    }
}

#[test]
fn add_keeps_a_byte_disjoint_from_an_existing_range() {
    let mut set = ByteSet::new();
    set.add_byte_range(ByteRange {
        start: 0,
        last: 100,
    });
    set.add(200);
    assert_eq!(members(&set), (0..=100).chain([200]).collect::<Vec<u8>>());
}

#[test]
fn add_byte_range_works_in_const_context() {
    let digits: ByteSet = {
        let mut set = ByteSet::new();
        set.add_byte_range(ByteRange {
            start: b'0',
            last: b'9',
        });
        set
    };
    assert_eq!(members(&digits), b"0123456789");
}

fn assert_same_finder(built: &MemchrN, expected: &MemchrN, case: &str) {
    let all: Vec<u8> = (0..=u8::MAX).collect();
    assert_eq!(
        built.iter(&all).collect::<Vec<_>>(),
        expected.iter(&all).collect::<Vec<_>>(),
        "{case}"
    );
    // Equal members alone would miss representation-selection regressions.
    assert_eq!(format!("{built:?}"), format!("{expected:?}"), "{case}");
}

#[test]
fn from_byte_set_matches_the_dedicated_constructors() {
    let mut vowels = ByteSet::new();
    for &byte in b"aeiou" {
        vowels.add(byte);
    }
    let mut digits = ByteSet::new();
    digits.add_range(b'0'..=b'9');
    let mut not_dot = ByteSet::from_bytes(b".");
    not_dot.invert();
    let mut printable = ByteSet::full();
    printable.remove_range(0..=b' ' - 1);
    printable.remove(0x7F);
    printable.remove_range(0x80..=0xFF);

    assert_same_finder(
        &MemchrN::from_byte_set(vowels),
        &MemchrN::new(b"aeiou"),
        "list",
    );
    assert_same_finder(
        &MemchrN::from_byte_set(digits),
        &MemchrN::from_range(bounds(b'0'..=b'9')),
        "range",
    );
    assert_same_finder(
        &MemchrN::from_byte_set(not_dot),
        &MemchrN::from_not_byte(b'.'),
        "complement",
    );
    assert_same_finder(
        &MemchrN::from_byte_set(printable),
        &MemchrN::from_range(bounds(b' '..0x7F)),
        "range carved out of a full set",
    );
    assert_same_finder(
        &MemchrN::from_byte_set(ByteSet::new()),
        &MemchrN::new(b""),
        "empty",
    );
}

#[test]
fn from_byte_set_honors_the_backend() {
    let mut set = ByteSet::new();
    set.add_range(b'a'..=b'f');
    set.add_range(b'0'..=b'9');

    for backend in [Backend::Auto, Backend::Swar] {
        assert_same_finder(
            &MemchrN::from_byte_set_with_backend(set, backend),
            &MemchrN::new_with_backend(b"0123456789abcdef", backend),
            &format!("{backend:?}"),
        );
    }
}

fn build_word(bytes: &[u8]) -> MemchrN {
    MemchrN::new_with_backend(bytes, Backend::Swar)
}

fn build(bytes: &[u8]) -> MemchrN {
    MemchrN::new(bytes)
}

fn naive(set: &[u8], haystack: &[u8]) -> Vec<usize> {
    let mut offsets = Vec::new();
    for (offset, byte) in haystack.iter().enumerate() {
        if set.contains(byte) {
            offsets.push(offset);
        }
    }
    offsets
}

fn ascii_class(keep: fn(&u8) -> bool) -> Vec<u8> {
    let mut bytes = Vec::new();
    for byte in 0..=127u8 {
        if keep(&byte) {
            bytes.push(byte);
        }
    }
    bytes
}

/// Common byte classes that fit in eight groups despite some having more than eight bytes.
fn character_classes() -> Vec<(&'static str, Vec<u8>)> {
    vec![
        ("alphanumeric", ascii_class(u8::is_ascii_alphanumeric)),
        ("alphabetic", ascii_class(u8::is_ascii_alphabetic)),
        ("punctuation", ascii_class(u8::is_ascii_punctuation)),
        ("hex digit", ascii_class(u8::is_ascii_hexdigit)),
        ("whitespace", ascii_class(u8::is_ascii_whitespace)),
        ("url unsafe", b" \"<>#%{}|".to_vec()),
        (
            "shell metacharacter",
            b"|&;<>()$`\\\"' \t\n*?[#~=%".to_vec(),
        ),
        ("regex metacharacter", b"\\.+*?()|[]{}^$".to_vec()),
        ("c escape", b"\\\"\n\r\t\x07\x08\x0c\x0b\0".to_vec()),
    ]
}

fn sets() -> Vec<Vec<u8>> {
    vec![
        vec![],
        b"z".to_vec(),
        b"az".to_vec(),
        b"azQ".to_vec(),
        b"aeiouAEI".to_vec(),
        b"abcdefghjl".to_vec(),
        b"0123456789abcdef".to_vec(),
        ascii_class(u8::is_ascii_alphanumeric),
        ascii_class(u8::is_ascii_punctuation),
        column_grouped_set(),
        DIAGONAL_SET.to_vec(),
        (b'0'..=b'9').collect(),
        (0x80..=0xFF).collect(),
        (0..=255u8).step_by(3).collect(),
    ]
}

fn haystack(len: usize) -> Vec<u8> {
    // The period does not align with 64-byte chunks.
    (0..len).map(|i| ((i * 37 + i / 7) % 251) as u8).collect()
}

#[test]
fn matches_naive_across_lengths() {
    for set in sets() {
        for (name, searcher) in [("vector", build(&set)), ("word", build_word(&set))] {
            let lens = (0..=80).chain([127, 128, 129, 255, 256, 1000]);
            for len in lens {
                let haystack = haystack(len);
                let expected = naive(&set, &haystack);
                let got: Vec<usize> = searcher.iter(&haystack).collect();
                assert_eq!(got, expected, "{name} set {set:?} len {len}");
                assert_eq!(
                    searcher.iter(&haystack).count(),
                    expected.len(),
                    "{name} count for set {set:?} len {len}"
                );
            }
        }
    }
}

#[test]
fn find_matches_naive() {
    for set in sets() {
        for (name, searcher) in [("vector", build(&set)), ("word", build_word(&set))] {
            let lens = (0..=80).chain([127, 128, 129, 255, 256, 1000]);
            for len in lens {
                let haystack = haystack(len);
                let expected = naive(&set, &haystack).first().copied();
                assert_eq!(
                    searcher.find(&haystack),
                    expected,
                    "{name} set {set:?} len {len}"
                );
            }
        }
    }
}

#[test]
fn overlapping_tail_does_not_repeat_matches() {
    // The dense set exercises scalar `BitsetLookup` and contains `x`.
    let dense: Vec<u8> = (0..=u8::MAX).step_by(3).collect();
    for searcher in [build(b"x"), build_word(b"x"), build_word(&dense)] {
        for len in 0..192 {
            let haystack = vec![b'x'; len];
            let expected: Vec<usize> = (0..len).collect();
            assert_eq!(
                searcher.iter(&haystack).collect::<Vec<_>>(),
                expected,
                "{len}"
            );
            assert_eq!(searcher.iter(&haystack).count(), len, "{len}");
        }
    }
}

#[test]
fn advance_to_preserves_matches_at_and_after_the_index() {
    for backend in [Backend::Auto, Backend::Swar] {
        let finder = MemchrN::new_with_backend(b"x", backend);
        for len in [0, 1, 7, 8, 15, 16, 17, 63, 64, 65, 127, 128, 129, 257] {
            let haystack = vec![b'x'; len];
            for consumed in 0..=len {
                let mut iter = finder.iter(&haystack);
                for offset in 0..consumed {
                    assert_eq!(iter.next(), Some(offset));
                }
                for idx in 0..=len + 1 {
                    let mut iter = iter.clone();
                    iter.advance_to(idx);
                    let start = consumed.max(idx).min(len);
                    assert_eq!(iter.clone().count(), len - start);
                    let (min, max) = iter.size_hint();
                    assert!(min <= len - start);
                    assert!(max.unwrap() >= len - start);
                    for expected in start..len {
                        assert_eq!(iter.next(), Some(expected));
                    }
                    assert_eq!(iter.next(), None);
                    iter.advance_to(0);
                    assert_eq!(iter.next(), None);
                }
            }
        }
    }
}

#[test]
fn repeated_advance_to_matches_naive() {
    for set in sets() {
        for backend in [Backend::Auto, Backend::Swar] {
            let finder = MemchrN::new_with_backend(&set, backend);
            let haystack = haystack(1000);
            let expected = naive(&set, &haystack);
            let mut position = 0;
            let mut iter = finder.iter(&haystack);
            for idx in [
                0,
                17,
                3,
                17,
                64,
                127,
                128,
                129,
                400,
                256,
                999,
                usize::MAX,
                0,
            ] {
                iter.advance_to(idx);
                while position < expected.len() && expected[position] < idx {
                    position += 1;
                }
                assert_eq!(iter.clone().count(), expected.len() - position);
                iter.advance_to(0);
                assert_eq!(iter.next(), expected.get(position).copied());
                position = (position + 1).min(expected.len());
                assert_eq!(iter.nth(1), expected.get(position + 1).copied());
                position = (position + 2).min(expected.len());
            }
        }
    }
}

#[test]
fn nth_matches_naive() {
    for set in sets() {
        for (name, searcher) in [("vector", build(&set)), ("word", build_word(&set))] {
            for len in (0..=80).chain([127, 128, 129, 255, 256, 1000]) {
                let haystack = haystack(len);
                let expected = naive(&set, &haystack);
                for n in [0, 1, 2, 3, 7, 63, 64, 65, 100] {
                    assert_eq!(
                        searcher.iter(&haystack).nth(n),
                        expected.get(n).copied(),
                        "{name} set {set:?} len {len} nth {n}"
                    );
                }
            }
        }
    }
}

#[test]
fn find_reports_every_offset() {
    for (name, searcher) in [("vector", build(b"x")), ("word", build_word(b"x"))] {
        for len in 0..=80 {
            for offset in 0..len {
                let mut haystack = vec![b'.'; len];
                haystack[offset] = b'x';
                assert_eq!(
                    searcher.find(&haystack),
                    Some(offset),
                    "{name} len {len} offset {offset}"
                );
            }
            assert_eq!(
                searcher.find(&vec![b'.'; len]),
                None,
                "{name} miss len {len}"
            );
        }
    }
}

#[test]
fn find_reports_first_offset_across_vector_batches() {
    for set in sets() {
        let Some(&needle) = set.first() else {
            continue;
        };
        let mut pad = 0;
        while set.contains(&pad) {
            pad += 1;
        }
        let searcher = build(&set);
        for len in [
            63, 64, 65, 79, 80, 81, 127, 128, 129, 255, 256, 257, 511, 512, 513,
        ] {
            for alignment in 0..64 {
                let mut storage = vec![needle; len + 128];
                let haystack = &mut storage[alignment..alignment + len];
                haystack.fill(pad);
                assert_eq!(searcher.find(haystack), None);
                for offset in (0..len).rev() {
                    haystack[offset] = needle;
                    assert_eq!(
                        searcher.find(haystack),
                        Some(offset),
                        "set {set:?} len {len} alignment {alignment} offset {offset}"
                    );
                }
            }
        }
    }
}

#[test]
fn per_byte_matcher_agrees_with_the_set() {
    for set in sets() {
        let pad = (0..=u8::MAX)
            .find(|byte| !set.contains(byte))
            .expect("no set here holds every byte");

        for (name, searcher) in [("vector", build(&set)), ("word", build_word(&set))] {
            for byte in 0..=u8::MAX {
                // Covers both scalar probes and staged tails.
                for len in [1, 2, 3, 4, 5, 7, 8, 9, 15] {
                    for offset in 0..len {
                        let mut haystack = vec![pad; len];
                        haystack[offset] = byte;
                        let expected = set.contains(&byte).then_some(offset);
                        assert_eq!(
                            searcher.find(&haystack),
                            expected,
                            "{name} set {set:?} byte {byte} len {len} offset {offset}"
                        );
                    }
                }
            }
        }
    }
}

#[test]
fn nth_advances_like_repeated_next() {
    let set = b"aeiouAEI";
    let searcher = build(set);
    let haystack = haystack(1000);
    let expected = naive(set, &haystack);
    for step in [0, 1, 5, 64, 200] {
        let mut iter = searcher.iter(&haystack);
        let mut index = 0;
        let mut got = Vec::new();
        while let Some(offset) = iter.nth(step) {
            index += step;
            got.push((index, offset));
            index += 1;
        }
        let mut want = Vec::new();
        let mut index = step;
        while index < expected.len() {
            want.push((index, expected[index]));
            index += step + 1;
        }
        assert_eq!(got, want, "step {step}");
    }
}

#[test]
fn count_matches_iteration_after_partial_consumption() {
    let searcher = build(b"aeiouAEI");
    let haystack = haystack(1000);
    for skip in [0, 1, 2, 7, 40] {
        let mut iter = searcher.iter(&haystack);
        let mut taken = 0;
        for _ in 0..skip {
            if iter.next().is_some() {
                taken += 1;
            }
        }
        assert_eq!(iter.count() + taken, naive(b"aeiouAEI", &haystack).len());
    }
}

#[test]
fn reports_a_match_from_either_half_of_a_pair() {
    for searcher in [build(b"x"), build_word(b"x")] {
        for len in [128, 192, 256, 300] {
            for offset in 0..len {
                let mut haystack = vec![b'.'; len];
                haystack[offset] = b'x';
                assert_eq!(
                    searcher.iter(&haystack).collect::<Vec<_>>(),
                    vec![offset],
                    "len {len} offset {offset}"
                );
                assert_eq!(
                    searcher.find(&haystack),
                    Some(offset),
                    "find, len {len} offset {offset}"
                );
            }
        }
    }
}

#[test]
fn find_agrees_with_the_iterator() {
    for set in sets() {
        for (name, searcher) in [("vector", build(&set)), ("word", build_word(&set))] {
            for len in (0..=80).chain([127, 128, 129, 191, 192, 255, 256, 1000]) {
                let haystack = haystack(len);
                assert_eq!(
                    searcher.find(&haystack),
                    searcher.iter(&haystack).next(),
                    "{name} set {set:?} len {len}"
                );
            }
        }
    }
}

#[test]
fn counts_do_not_overflow_the_accumulator() {
    let searcher = build(b"x");
    let len = 64 * (512 + 3);
    let haystack = vec![b'x'; len];
    assert_eq!(searcher.iter(&haystack).count(), len);
}

fn assert_not_byte(searcher: &MemchrN, excluded: u8, haystack: &[u8]) {
    let mut expected = Vec::new();
    for (offset, &byte) in haystack.iter().enumerate() {
        if byte != excluded {
            expected.push(offset);
        }
    }
    assert_eq!(searcher.find(haystack), expected.first().copied());
    assert_eq!(searcher.iter(haystack).collect::<Vec<_>>(), expected);
    assert_eq!(searcher.iter(haystack).count(), expected.len());
    for n in [0, 1, 7, 63, 64, 127, 128, haystack.len()] {
        let mut iter = searcher.iter(haystack);
        assert_eq!(iter.nth(n), expected.get(n).copied());
        assert_eq!(iter.count(), expected.len().saturating_sub(n + 1));
    }
    let mut iter = searcher.iter(haystack);
    let taken = usize::from(iter.next().is_some());
    assert_eq!(iter.count(), expected.len() - taken);
}

#[test]
fn not_byte_constructors_and_selection_agree() {
    let haystack: Vec<u8> = (0..=u8::MAX).collect();
    for excluded in 0..=u8::MAX {
        let mut bytes = Vec::new();
        for byte in 0..=u8::MAX {
            if byte != excluded {
                bytes.extend([byte, byte]);
            }
        }
        for backend in [Backend::Auto, Backend::Swar] {
            for searcher in [
                MemchrN::from_not_byte_with_backend(excluded, backend),
                MemchrN::new_with_backend(&bytes, backend),
            ] {
                assert_eq!(format!("{:?}", searcher.plan().kernel_kind()), "NotByte");
                assert_not_byte(&searcher, excluded, &haystack);
                for byte in 0..=u8::MAX {
                    assert_eq!(searcher.find(&[byte]), (byte != excluded).then_some(0));
                }
            }
            for (range, excluded) in [(1..=255, 0), (0..=254, 255)] {
                let searcher = MemchrN::from_range_with_backend(bounds(range), backend);
                assert_eq!(format!("{:?}", searcher.plan().kernel_kind()), "NotByte");
                assert_not_byte(&searcher, excluded, &haystack);
            }
        }
        let searcher = MemchrN::from_not_byte(excluded);
        assert_not_byte(&searcher, excluded, &haystack);
        let searcher = MemchrN::from_iter(bytes.into_iter());
        assert_eq!(format!("{:?}", searcher.plan().kernel_kind()), "NotByte");
        assert_not_byte(&searcher, excluded, &haystack);
    }
}

#[test]
fn not_byte_handles_alignment_tails_and_match_density() {
    for excluded in [0, 1, b' ', 127, 128, 254, 255] {
        for backend in [Backend::Auto, Backend::Swar] {
            let searcher = MemchrN::from_not_byte_with_backend(excluded, backend);
            for len in [
                0, 1, 7, 8, 9, 15, 16, 17, 31, 32, 33, 63, 64, 65, 127, 128, 129, 191, 192,
                193, 255, 256, 257, 513,
            ] {
                for alignment in 0..64 {
                    let mut storage = vec![excluded; len + 64];
                    let haystack = &mut storage[alignment..alignment + len];
                    assert_not_byte(&searcher, excluded, haystack);
                    if len != 0 {
                        for offset in [0, len / 2, len - 1] {
                            haystack[offset] = excluded.wrapping_add(1);
                            assert_not_byte(&searcher, excluded, haystack);
                            haystack[offset] = excluded;
                        }
                    }
                    haystack.fill(excluded.wrapping_add(1));
                    assert_not_byte(&searcher, excluded, haystack);
                    for offset in (0..len).step_by(3) {
                        haystack[offset] = excluded;
                    }
                    assert_not_byte(&searcher, excluded, haystack);
                }
            }
            assert_not_byte(
                &searcher,
                excluded,
                &vec![excluded.wrapping_add(1); 64 * 515],
            );
        }
    }
}
