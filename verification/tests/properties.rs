use core::ops::Bound;
use memchr_n::bits::{slide_ends, word_from_le_bytes};
use memchr_n::bitset::{inclusive_range, ByteRange};
use memchr_n::nibbles::{extract_fixed_nibble_table, FixedNibble, NibbleLookup};
use memchr_n::search::scan_offsets;
use memchr_n::swar::kernels::{NotByte, OneRange};
use memchr_n::swar::{nonzero_bytes, splat, Kernel};
use memchr_n::{Backend, ByteSet, MemchrN};

const BACKENDS: [Backend; 2] = [Backend::Auto, Backend::Swar];

fn haystack(len: usize) -> Vec<u8> {
    (0..len).map(|i| ((i * 37 + i / 7) % 251) as u8).collect()
}

#[test]
fn offsets_ascend_and_name_exactly_the_members() {
    let set = ByteSet::from_bytes(b"aeiou \x00");
    let haystack = haystack(500);
    for backend in BACKENDS {
        let finder = MemchrN::from_byte_set_with_backend(set, backend);
        let offsets: Vec<usize> = finder.iter(&haystack).collect();
        for pair in offsets.windows(2) {
            assert!(pair[0] < pair[1]);
        }
        for (at, &byte) in haystack.iter().enumerate() {
            assert_eq!(offsets.contains(&at), set.contains(byte));
        }
    }
}

#[test]
fn searching_on_behind_each_match_finds_what_a_walk_finds() {
    let haystack = haystack(400);
    for backend in BACKENDS {
        let finder = MemchrN::new_with_backend(b"aeiouAEI", backend);
        let mut start = 0;
        let mut found = Vec::new();
        while let Some(at) = finder.find(&haystack[start..]) {
            found.push(start + at);
            start += at + 1;
        }
        assert_eq!(finder.iter(&haystack).collect::<Vec<_>>(), found);
    }
}

#[test]
fn a_set_and_its_complement_share_out_the_haystack() {
    let set = ByteSet::from_bytes(b"aeiou");
    assert_eq!(set.len() + (!set).len(), 256);
    assert_eq!(!!set, set);
    let haystack = haystack(300);
    for backend in BACKENDS {
        let inside = MemchrN::from_byte_set_with_backend(set, backend);
        let outside = MemchrN::from_byte_set_with_backend(!set, backend);
        let total = inside.iter(&haystack).count() + outside.iter(&haystack).count();
        assert_eq!(total, haystack.len());
    }
    assert_eq!(MemchrN::new(b"").iter(&haystack).count(), 0);
    assert_eq!(MemchrN::from_byte_set(ByteSet::full()).iter(&haystack).count(), 300);
}

#[test]
fn set_operations_keep_their_laws() {
    let (a, b) = (ByteSet::from_bytes(b"abcdef"), ByteSet::from_bytes(b"defghi"));
    assert_eq!(a ^ b, (a | b) - (a & b));
    assert_eq!(a - b, a & !b);
    assert_eq!(!(a | b), !a & !b);
    assert_eq!(!(a & b), !a | !b);
    let mut same = a;
    same.add(b'a');
    assert_eq!(same, a);
    same.add(b'z');
    assert_ne!(same, a);
    same.remove(b'z');
    same.remove(b'y');
    assert_eq!(same, a);
    assert_eq!(ByteSet::default(), ByteSet::new());
    let mut extended = a;
    extended.extend(b"ghi".iter().copied());
    assert_eq!(extended, a | b);
}

#[test]
fn advancing_twice_is_advancing_to_the_further_index() {
    let haystack = haystack(300);
    for backend in BACKENDS {
        let finder = MemchrN::new_with_backend(b"aeiouAEI", backend);
        for (first, second) in [(0, 0), (10, 40), (40, 10), (130, 64), (64, 130), (299, 500)] {
            let mut twice = finder.iter(&haystack);
            twice.next();
            twice.advance_to(first);
            twice.advance_to(second);
            let mut once = finder.iter(&haystack);
            once.next();
            once.advance_to(first.max(second));
            assert_eq!(twice.collect::<Vec<_>>(), once.collect::<Vec<_>>());
        }
    }
}

#[test]
fn an_ended_walk_stays_ended() {
    let haystack = haystack(300);
    for bytes in [&b""[..], b"a", b"aeiouAEI"] {
        for backend in BACKENDS {
            let finder = MemchrN::new_with_backend(bytes, backend);
            let mut iter = finder.iter(&haystack);
            while iter.next().is_some() {}
            for idx in [0, 1, 127, 128, 129, 200, 299, 300, usize::MAX] {
                iter.advance_to(idx);
                assert_eq!(iter.next(), None);
                assert_eq!(iter.nth(3), None);
                assert_eq!(iter.size_hint(), (0, Some(0)));
                assert_eq!(iter.clone().count(), 0);
            }
        }
    }
}

#[test]
fn size_hints_count_what_is_held_and_what_is_unscanned() {
    let finder = MemchrN::new_with_backend(b"x", Backend::Swar);
    let haystack = b"x.x.............y";
    let mut iter = finder.iter(haystack);
    assert_eq!(iter.size_hint(), (0, Some(17)));
    assert_eq!(iter.next(), Some(0));
    // The first sixteen bytes have been scanned, and one more match has been found there.
    assert_eq!(iter.size_hint(), (1, Some(2)));
    assert_eq!(iter.next(), Some(2));
    assert_eq!(iter.size_hint(), (0, Some(1)));
}

#[test]
fn nth_leaves_what_repeated_next_leaves() {
    let haystack = haystack(600);
    for backend in BACKENDS {
        let finder = MemchrN::new_with_backend(b"aeiouAEI", backend);
        for n in [0, 1, 2, 9, 20, 1000] {
            let mut skipping = finder.iter(&haystack);
            let mut stepping = finder.iter(&haystack);
            let skipped = skipping.nth(n);
            let mut stepped = stepping.next();
            for _ in 0..n {
                stepped = stepping.next();
            }
            assert_eq!(skipped, stepped);
            assert_eq!(skipping.collect::<Vec<_>>(), stepping.collect::<Vec<_>>());
        }
    }
}

#[test]
fn copies_go_on_from_the_same_place() {
    let finder = MemchrN::new(b"ab");
    let copy = finder.clone();
    assert_eq!(format!("{copy:?}"), format!("{finder:?}"));
    let mut iter = copy.iter(b"abba");
    assert_eq!(iter.next(), Some(0));
    let rest = iter.clone();
    assert_eq!(iter.collect::<Vec<_>>(), vec![1, 2, 3]);
    assert_eq!(rest.collect::<Vec<_>>(), vec![1, 2, 3]);
}

#[test]
fn scans_list_every_member() {
    let set = ByteSet::from_bytes(b"ab");
    assert_eq!(scan_offsets(&set, b"xaxbxab"), vec![1, 3, 5, 6]);
    assert_eq!(scan_offsets(&set, b""), Vec::<usize>::new());
}

#[test]
fn bounds_become_inclusive_ranges() {
    let range = |low, high| inclusive_range((low, high)).map(|range| (range.start, range.last));
    assert_eq!(range(Bound::Unbounded, Bound::Unbounded), Some((0, 255)));
    assert_eq!(range(Bound::Included(3), Bound::Excluded(5)), Some((3, 4)));
    assert_eq!(range(Bound::Excluded(3), Bound::Included(5)), Some((4, 5)));
    assert_eq!(range(Bound::Excluded(3), Bound::Excluded(4)), None);
    assert_eq!(range(Bound::Excluded(255), Bound::Unbounded), None);
    assert_eq!(range(Bound::Unbounded, Bound::Excluded(0)), None);
    assert_eq!(range(Bound::Included(9), Bound::Included(8)), None);
}

#[test]
fn members_are_written_as_literals() {
    assert_eq!(ByteSet::new().debug_string(), "{}");
    assert_eq!(
        ByteSet::from_bytes(b"\t\r\"\\ ~\x00\x7f\xff").debug_string(),
        "{b'\\x00', b'\\t', b'\\r', b' ', b'\\\"', b'\\\\', b'~', b'\\x7f', b'\\xff'}"
    );
    for byte in 0..=255u8 {
        assert_eq!(
            ByteSet::from_bytes(&[byte]).debug_string(),
            format!("{{b'{}'}}", byte.escape_ascii())
        );
    }
}

#[test]
fn formatted_text_is_the_text_for_diagnostics() {
    let all: Vec<u8> = (0..=255).collect();
    for bytes in [&b""[..], b"a", b"\x00\n'\"\\~\xff", &all] {
        let set = ByteSet::from_bytes(bytes);
        assert_eq!(format!("{set:?}"), set.debug_string());
        let finder = MemchrN::from_byte_set(set);
        assert_eq!(format!("{finder:?}"), finder.debug_string());
    }
    assert_eq!(
        format!("{:#?}", ByteSet::from_bytes(b"b\n")),
        "{\n    b'\\n',\n    b'b',\n}"
    );
    assert_eq!(
        format!("{:#?}", MemchrN::new_with_backend(b"ab", Backend::Swar)),
        "MemchrN {\n    engine: Swar,\n    kernel_kind: TwoBytes,\n    ..\n}"
    );
}

fn hint_of<I: Iterator>(iter: &I) -> (usize, Option<usize>) {
    iter.size_hint()
}

fn count_of<I: Iterator>(iter: I) -> usize {
    iter.count()
}

fn nth_of<I: Iterator>(iter: &mut I, n: usize) -> Option<I::Item> {
    iter.nth(n)
}

#[test]
fn walks_answer_as_iterators_do() {
    let finder = MemchrN::new(b"xyz");
    for len in [0usize, 1, 7, 8, 31, 64, 200, 1000] {
        let haystack: Vec<u8> = (0..len).map(|at| b"axbycz.."[at * 5 % 8]).collect();
        let mut iter = finder.iter(&haystack);
        assert_eq!(hint_of(&iter), (0, Some(len)));
        let mut left = iter.clone().collect::<Vec<_>>().len();
        assert_eq!(count_of(iter.clone()), left);
        while left > 0 {
            assert_eq!(nth_of(&mut iter.clone(), left - 1), iter.clone().last());
            assert_eq!(nth_of(&mut iter.clone(), left), None);
            assert!(iter.next().is_some());
            left -= 1;
            let (least, most) = hint_of(&iter);
            assert!(least <= left && left <= most.unwrap() && most.unwrap() <= len);
        }
        assert_eq!(iter.next(), None);
        assert_eq!(hint_of(&iter), (0, Some(0)));
    }
}

#[test]
fn words_and_lanes() {
    assert_eq!(splat(0xAB), 0xABAB_ABAB_ABAB_ABAB);
    assert_eq!(word_from_le_bytes([1, 2, 3, 4, 5, 6, 7, 8]), 0x0807_0605_0403_0201);
    let marks = nonzero_bytes(0x0001_8000_FF7F_0002);
    for lane in 0..8 {
        let nonzero = [true, false, true, true, false, true, true, false][lane];
        assert_eq!(marks >> (8 * lane + 7) & 1 == 1, nonzero, "lane {lane}");
    }
}

#[test]
fn sliding_ends_merges_their_overlap() {
    assert_eq!(slide_ends(0b0000_1001, 4, 8), 0b0000_1001);
    assert_eq!(slide_ends(0b1001_0000, 4, 8), 0b1001_0000);
    assert_eq!(slide_ends(0b1001_0000, 4, 7), 0b0100_1000);
    assert_eq!(slide_ends(0b11, 1, 1), 0b1);
    assert_eq!(slide_ends(0b10, 1, 2), 0b10);
}

#[test]
fn word_ranges_wrap_around() {
    let wrapping = OneRange::new(ByteRange { start: 250, last: 5 });
    let not_byte = NotByte::new(9);
    for byte in 0..=255u8 {
        assert_eq!(wrapping.matches_byte(byte), byte >= 250 || byte <= 5);
        assert_eq!(not_byte.matches_byte(byte), byte != 9);
        let word = word_from_le_bytes([byte, 0, 9, 250, 249, 5, 6, 255]);
        assert_eq!(wrapping.matches(word) & 0x80 != 0, byte >= 250 || byte <= 5);
        assert_eq!(not_byte.matches(word) & 0x80 != 0, byte != 9);
        for (lane, in_range) in [(1, true), (2, false), (3, true), (4, false), (5, true), (7, true)] {
            assert_eq!(wrapping.matches(word) >> (8 * lane + 7) & 1 == 1, in_range);
        }
    }
}

#[test]
fn nibble_tables_hold_members_and_vacancies() {
    let table = extract_fixed_nibble_table(&[0x13, 0x33]).unwrap();
    assert_eq!(table.fixed_nibble, FixedNibble::Low);
    assert_eq!(table.table, [0x10, 0x13, 0, 0x33, 0, 0, 0, 0, 0, 0, 0, 0, 0, 0, 0, 0]);
    let table = extract_fixed_nibble_table(&[0x31, 0x33]).unwrap();
    assert_eq!(table.fixed_nibble, FixedNibble::High);
    assert_eq!(table.table, [0x01, 0x31, 0, 0x33, 0, 0, 0, 0, 0, 0, 0, 0, 0, 0, 0, 0]);
    assert!(extract_fixed_nibble_table(&[0x12, 0x21]).is_none());
    assert!(extract_fixed_nibble_table(&[]).is_none());
    let mut lookup = NibbleLookup::default();
    lookup.set(3, 0);
    lookup.set(3, 7);
    assert_eq!(lookup.0, [0, 0, 0, 0x81, 0, 0, 0, 0, 0, 0, 0, 0, 0, 0, 0, 0]);
}

#[test]
fn long_haystacks_are_counted_with_every_backend() {
    for backend in BACKENDS {
        for len in [8 * 255, 8 * 256 + 3, 64 * 255, 64 * 256 + 17] {
            let haystack = vec![b'x'; len];
            let finder = MemchrN::new_with_backend(b"x", backend);
            assert_eq!(finder.iter(&haystack).count(), len);
        }
    }
}

fn assert_shareable<T: Send + Sync>(_: &T) {}

fn assert_fused<I: core::iter::FusedIterator<Item = usize>>(_: &I) {}

#[test]
fn searchers_can_be_shared_and_walks_are_fused() {
    let finder = MemchrN::new(b"ab");
    assert_shareable(&finder);
    assert_fused(&finder.iter(b"abba"));
}

#[test]
fn documented_searches() {
    let mut not_identifier = ByteSet::from_bytes(b"_");
    not_identifier.add_range(b'0'..=b'9');
    not_identifier.add_range(b'a'..=b'z');
    not_identifier.add_range(b'A'..=b'Z');
    not_identifier.invert();
    let finder = MemchrN::from_byte_set(not_identifier);
    assert_eq!(finder.find(b"some_name(x)"), Some(9));

    let mut hex = ByteSet::new();
    hex.add_range(b'0'..=b'9');
    hex.add_range(b'a'..=b'f');
    let mut lower = ByteSet::new();
    lower.add_range(b'a'..=b'z');
    let finder = MemchrN::from_byte_set(lower - hex);
    assert_eq!(finder.find(b"deadbeef zoo"), Some(9));

    let finder = MemchrN::new(b"aeiou");
    assert_eq!(finder.find(b"rhythm and blues"), Some(7));
    assert_eq!(finder.iter(b"rust").collect::<Vec<_>>(), vec![1]);
    let mut matches = finder.iter(b"hello world");
    assert_eq!(matches.next(), Some(1));
    matches.advance_to(4);
    assert_eq!(matches.next(), Some(4));
    matches.advance_to(1);
    assert_eq!(matches.next(), Some(7));

    let finder = MemchrN::new_with_backend(b"!?", Backend::Swar);
    assert_eq!(finder.find(b"well, hello!"), Some(11));
    let finder = MemchrN::from_not_byte(b' ');
    assert_eq!(finder.find(b"   hello"), Some(3));
    let finder = MemchrN::from_not_byte_with_backend(b' ', Backend::Swar);
    assert_eq!(finder.iter(b" a b ").collect::<Vec<_>>(), vec![1, 3]);
    let digits = (Bound::Included(b'0'), Bound::Excluded(b':'));
    assert_eq!(MemchrN::from_range(digits).find(b"page 2"), Some(5));
}
