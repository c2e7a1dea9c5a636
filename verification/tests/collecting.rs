use fearless_simd::Level;
use memchr_n::bitset::{byte_set_from_words, ByteRange};
use memchr_n::engine::Engine;
use memchr_n::kind::Kind;
use memchr_n::nibbles::FixedNibble;
use memchr_n::plan::KernelKind;
use memchr_n::search::scan_offsets;
use memchr_n::{Backend, ByteSet, Bytes};

fn all_bytes() -> Vec<u8> {
    (0..=255).collect()
}

fn members(bytes: &Bytes, backend: Backend) -> Vec<u8> {
    let all = all_bytes();
    let finder = bytes.finder_with(backend);
    finder.iter(&all).map(|offset| all[offset]).collect()
}

#[test]
fn collected_bytes_are_found_with_every_backend() {
    let cases: [Vec<u8>; 8] = [
        vec![],
        b"z".to_vec(),
        b"za".to_vec(),
        b"zab".to_vec(),
        (10..=20).rev().collect(),
        b"aeiouAEI".to_vec(),
        (0..=255).step_by(5).collect(),
        (40..=90).collect(),
    ];
    for case in cases {
        let mut sorted = case.clone();
        sorted.sort();
        for backend in [Backend::Auto, Backend::Swar, Backend::Level(Level::baseline())] {
            assert_eq!(members(&Bytes::from_bytes(&case), backend), sorted);
            assert_eq!(members(&Bytes::from_iter(case.iter().copied()), backend), sorted);
        }
        assert_eq!(
            Bytes::from_bytes(&case).finder().find(&all_bytes()),
            sorted.first().map(|&byte| usize::from(byte))
        );
    }
    assert_eq!(members(&Bytes::default(), Backend::Auto), b"");
}

#[test]
fn few_bytes_keep_the_order_in_which_they_were_added() {
    assert!(matches!(Bytes::new().kind(true), Kind::Never));
    assert!(matches!(Bytes::from_bytes(b"qqq").kind(true), Kind::OneByte(b'q')));
    assert!(matches!(Bytes::from_bytes(b"zaz").kind(true), Kind::TwoBytes([b'z', b'a'])));
    assert!(matches!(
        Bytes::from_bytes(b"zqaq").kind(true),
        Kind::ThreeBytes([b'z', b'q', b'a'])
    ));
    // A set that is not collected lists its members in ascending order.
    assert!(matches!(
        ByteSet::from_bytes(b"zqaq").kind(true),
        Kind::ThreeBytes([b'a', b'q', b'z'])
    ));
}

#[test]
fn kinds_depend_on_the_set_and_on_shuffles() {
    let range = [12, 10, 11, 13];
    let small = b"aeiouAEI";
    let sharing: Vec<u8> = (0..16).map(|hi| hi << 4 | 3).filter(|byte| byte % 3 != 0).collect();
    let scattered: Vec<u8> = (0..30).map(|i: u8| i.wrapping_mul(7)).collect();
    for fast_shuffles in [false, true] {
        for kind in [
            Bytes::from_bytes(&range).kind(fast_shuffles),
            ByteSet::from_bytes(&range).kind(fast_shuffles),
        ] {
            assert!(matches!(kind, Kind::OneRange(ByteRange { start: 10, last: 13 })));
        }
        for kind in [
            Bytes::from_bytes(small).kind(fast_shuffles),
            ByteSet::from_bytes(small).kind(fast_shuffles),
        ] {
            assert_eq!(matches!(kind, Kind::SmallSet { .. }), fast_shuffles);
            assert_eq!(matches!(kind, Kind::AnyByte(_)), !fast_shuffles);
        }
        assert!(sharing.len() > 8);
        for kind in [
            Bytes::from_bytes(&sharing).kind(fast_shuffles),
            ByteSet::from_bytes(&sharing).kind(fast_shuffles),
        ] {
            match kind {
                Kind::ConstantNibble(table) => {
                    assert!(fast_shuffles);
                    assert_eq!(table.fixed_nibble, FixedNibble::Low);
                }
                Kind::AnyByte(_) => assert!(!fast_shuffles),
                _ => panic!("neither a table of nibbles nor one of bytes"),
            }
        }
        for kind in [
            Bytes::from_bytes(&scattered).kind(fast_shuffles),
            ByteSet::from_bytes(&scattered).kind(fast_shuffles),
        ] {
            match kind {
                Kind::AnyByte(set) => assert_eq!(set, ByteSet::from_bytes(&scattered)),
                _ => panic!("not a table of bytes"),
            }
        }
    }
}

#[test]
fn small_sets_give_each_byte_a_group() {
    let bytes = b"zaeioyAE";
    match Bytes::from_bytes(bytes).kind(true) {
        Kind::SmallSet { lo_lookup, hi_lookup } => {
            for (group, &byte) in bytes.iter().enumerate() {
                for nibble in 0..16u8 {
                    let lo = lo_lookup.0[usize::from(nibble)] >> group & 1 == 1;
                    let hi = hi_lookup.0[usize::from(nibble)] >> group & 1 == 1;
                    assert_eq!(lo, byte & 0x0F == nibble);
                    assert_eq!(hi, byte >> 4 == nibble);
                }
            }
        }
        _ => panic!("not a small set"),
    }
}

#[test]
fn too_many_bytes_to_list_become_a_range_or_a_table() {
    let mut bytes = Bytes::from_bytes(&(100..124).rev().collect::<Vec<u8>>());
    bytes.add(124);
    assert!(matches!(
        bytes.kind(true),
        Kind::OneRange(ByteRange { start: 100, last: 124 })
    ));
    bytes.add(99);
    bytes.add(125);
    bytes.add(110);
    assert!(matches!(bytes.kind(true), Kind::OneRange(ByteRange { start: 99, last: 125 })));
    bytes.add_range(ByteRange { start: 90, last: 98 });
    bytes.add_range(ByteRange { start: 126, last: 130 });
    assert!(matches!(bytes.kind(true), Kind::OneRange(ByteRange { start: 90, last: 130 })));
    bytes.add(0);
    assert!(matches!(bytes.kind(true), Kind::AnyByte(_)));
    bytes.add_range(ByteRange { start: 1, last: 89 });
    assert!(matches!(bytes.kind(true), Kind::OneRange(ByteRange { start: 0, last: 130 })));

    let mut apart = Bytes::from_range(0..=60);
    apart.add_range(ByteRange { start: 200, last: 255 });
    let expected: Vec<u8> = (0..=60).chain(200..=255).collect();
    assert_eq!(members(&apart, Backend::Auto), expected);

    let mut scattered = Bytes::from_bytes(&(0..24).map(|i| i * 3).collect::<Vec<u8>>());
    scattered.add(200);
    let expected: Vec<u8> = (0..24).map(|i| i * 3).chain([200]).collect();
    assert_eq!(members(&scattered, Backend::Swar), expected);
}

#[test]
fn adding_ranges_to_collected_bytes_matches_adding_each_byte() {
    for (start, last) in [(0u8, 255u8), (10, 9), (5, 5), (60, 80), (250, 255), (0, 30)] {
        for seed in [&b""[..], b"a", b"az\xff"] {
            let mut ranged = Bytes::from_bytes(seed);
            ranged.add_range(ByteRange { start, last });
            let mut one_at_a_time = Bytes::from_bytes(seed);
            one_at_a_time.extend(start..=last);
            assert_eq!(members(&ranged, Backend::Auto), members(&one_at_a_time, Backend::Auto));
        }
    }
    let mut up_to_max = Bytes::from_range(200..=255);
    up_to_max.add_range(ByteRange { start: 255, last: 255 });
    up_to_max.add(255);
    assert_eq!(members(&up_to_max, Backend::Auto), (200..=255).collect::<Vec<u8>>());
}

#[test]
fn tables_are_probed_byte_by_byte_where_bytes_cannot_be_shuffled() {
    let thirds: Vec<u8> = (0..=255).step_by(3).collect();
    let finder = Bytes::from_bytes(&thirds).finder_on(Engine::Swar);
    assert!(matches!(finder.plan().kernel_kind(), KernelKind::BitsetLookup));
    assert!(matches!(finder.plan().engine(), Engine::Swar));
    for len in [0, 1, 7, 8, 9, 31, 32, 33, 63, 64, 65, 100, 300] {
        let haystack: Vec<u8> = (0..len).map(|i: usize| (i * 37) as u8).collect();
        let expected = scan_offsets(&ByteSet::from_bytes(&thirds), &haystack);
        assert_eq!(finder.find(&haystack), expected.first().copied());
        assert_eq!(finder.iter(&haystack).collect::<Vec<_>>(), expected);
        assert_eq!(finder.iter(&haystack).count(), expected.len());
    }
    let haystack = vec![1u8; 100];
    assert_eq!(finder.find(&haystack), None);
}

#[test]
fn words_of_bits_describe_a_set() {
    assert_eq!(byte_set_from_words([0; 4]), ByteSet::new());
    assert_eq!(byte_set_from_words([u64::MAX; 4]), ByteSet::full());
    assert_eq!(
        byte_set_from_words([1, 1 << 63, 6, 1 << 5]),
        ByteSet::from_bytes(&[0, 127, 129, 130, 197])
    );
}

#[test]
fn bytes_are_held_as_their_number_demands() {
    let held = |bytes: &Bytes| format!("{bytes:?}");
    let mut bytes = Bytes::from_range(50..=80);
    assert_eq!(held(&bytes), "Bytes(Range(ByteRange { start: 50, last: 80 }))");
    bytes.add_range(ByteRange { start: 40, last: 60 });
    assert_eq!(held(&bytes), "Bytes(Range(ByteRange { start: 40, last: 80 }))");
    // One by one the first byte lies apart from the range, and a table stays one.
    let mut one_by_one = Bytes::from_range(50..=80);
    for byte in 40..=60 {
        one_by_one.add(byte);
    }
    assert_eq!(
        held(&one_by_one),
        format!("Bytes(Bitset({:?}))", ByteSet::from_range(40..=80))
    );
    assert_eq!(members(&bytes, Backend::Auto), members(&one_by_one, Backend::Auto));
    assert!(held(&Bytes::default()).starts_with("Bytes(Array { count: 0, "));
    assert!(held(&Bytes::from_range(1..=24)).starts_with("Bytes(Array { count: 24, "));
    assert!(held(&Bytes::from_range(1..=25)).starts_with("Bytes(Range("));
    let even = |count: u8| Bytes::from_iter((0..count).map(|byte| byte * 2));
    assert!(held(&even(24)).starts_with("Bytes(Array { count: 24, "));
    assert!(held(&even(25)).starts_with("Bytes(Bitset("));
}

#[test]
fn adding_members_changes_nothing() {
    let starts = [
        Bytes::from_bytes(b"zebra"),
        Bytes::from_range(10..=90),
        Bytes::from_bytes(&(0..=255).step_by(3).collect::<Vec<u8>>()),
    ];
    for start in starts {
        let held = members(&start, Backend::Auto);
        let mut bytes = start;
        for &byte in &held {
            bytes.add(byte);
            bytes.add_range(ByteRange { start: byte, last: byte });
        }
        bytes.add_range(ByteRange { start: 9, last: 3 });
        bytes.extend(held.iter().copied());
        assert_eq!(format!("{bytes:?}"), format!("{start:?}"));
    }
    let mut range = Bytes::from_range(10..=90);
    range.add_range(ByteRange { start: 20, last: 90 });
    assert_eq!(format!("{range:?}"), format!("{:?}", Bytes::from_range(10..=90)));
}
