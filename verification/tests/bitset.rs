use memchr_n::ByteSet;

#[test]
fn identifies_exactly_one_excluded_byte() {
    assert_eq!(ByteSet::new().excluded_byte(), None);
    let mut full = ByteSet::new();
    for byte in 0..=u8::MAX {
        full.add(byte);
    }
    assert_eq!(full.excluded_byte(), None);
    for excluded in 0..=u8::MAX {
        let mut set = ByteSet::new();
        for byte in 0..=u8::MAX {
            if byte != excluded {
                set.add(byte);
            }
        }
        assert_eq!(set.excluded_byte(), Some(excluded));
        for second in 0..=u8::MAX {
            if second == excluded {
                continue;
            }
            let mut set = set;
            set.remove(second);
            assert_eq!(set.excluded_byte(), None);
        }
    }
}

#[test]
fn full_contains_every_byte() {
    let full = ByteSet::full();
    for byte in 0..=u8::MAX {
        assert!(full.contains(byte), "{byte}");
    }
    assert_eq!(full.len(), 256);

    let mut inverted = ByteSet::new();
    inverted.invert();
    assert_eq!(inverted, full);
}

#[test]
fn remove_affects_only_its_byte() {
    for byte in 0..=u8::MAX {
        let mut set = ByteSet::full();
        set.remove(byte);
        for other in 0..=u8::MAX {
            let expected = other != byte;
            assert_eq!(set.contains(other), expected, "{other} without {byte}");
        }
        set.remove(byte);
        set.add(byte);
        assert_eq!(set, ByteSet::full());
    }
}

#[test]
fn remove_range_removes_exactly_its_members() {
    let bounds = [0u8, 1, 7, 8, 63, 64, 127, 128, 200, 254, 255];
    for &start in &bounds {
        for &last in bounds.iter().filter(|&&b| b >= start) {
            let mut set = ByteSet::full();
            set.remove_range(start..=last);
            for byte in 0..=u8::MAX {
                let expected = byte < start || byte > last;
                assert_eq!(set.contains(byte), expected, "{byte} in {start}..={last}");
            }
        }
    }
}

#[test]
// A range that starts past its end is what the test is about.
#[allow(clippy::reversed_empty_ranges)]
fn remove_range_of_empty_range_removes_nothing() {
    let mut set = ByteSet::from_bytes(b"abc");
    let before = set;
    set.remove_range(10..=9);
    set.remove_range(u8::MAX..=u8::MIN);
    assert_eq!(set, before);
}

#[test]
fn len_counts_distinct_members() {
    assert_eq!(ByteSet::new().len(), 0);
    assert!(ByteSet::new().is_empty());

    let mut set = ByteSet::new();
    for byte in 0..=u8::MAX {
        assert_eq!(set.len(), usize::from(byte));
        set.add(byte);
        set.add(byte);
        assert!(!set.is_empty());
    }
    assert_eq!(set.len(), 256);
}

#[test]
fn debug_lists_members_as_byte_literals() {
    let set = ByteSet::from_bytes(b"a\nz'");
    assert_eq!(format!("{set:?}"), r"{b'\n', b'\'', b'a', b'z'}");
    assert_eq!(set.debug_string(), r"{b'\n', b'\'', b'a', b'z'}");
}

#[test]
fn builds_in_const_context() {
    let not_space: ByteSet = {
        let mut set = ByteSet::from_bytes(b" \t");
        set.add(b'\n');
        set.remove(b'\t');
        set.invert();
        set
    };
    assert!(not_space.contains(b'\t'));
    assert!(!not_space.contains(b' '));
    assert!(!not_space.contains(b'\n'));
    assert_eq!(not_space.len(), 254);
}

#[test]
fn ranges_and_combinations_work_in_const_context() {
    let identifier: ByteSet = {
        let mut set = ByteSet::from_bytes(b"_");
        set.add_range(b'a'..=b'z');
        set.add_range(b'0'..=b'9');
        set
    };
    let not_ascii: ByteSet = {
        let mut set = ByteSet::full();
        set.remove_range(0..=0x7F);
        set
    };
    let hex: ByteSet = {
        let mut set = ByteSet::new();
        set.add_range(b'0'..=b'9');
        set.add_range(b'a'..=b'f');
        set
    };
    let beyond_hex: ByteSet = identifier.difference(hex);
    let either: ByteSet = identifier.union(not_ascii);

    assert_eq!(identifier.len(), 37);
    assert_eq!(not_ascii.len(), 128);
    assert_eq!(identifier.intersection(hex), hex);
    assert!(beyond_hex.contains(b'g'));
    assert!(!beyond_hex.contains(b'a'));
    assert_eq!(either.symmetric_difference(not_ascii), identifier);
}

#[test]
fn add_all_unions_in_the_slice() {
    let mut set = ByteSet::from_bytes(b"aeiou");
    set.add_all(b"");
    assert_eq!(set, ByteSet::from_bytes(b"aeiou"));

    set.add_all(b"eeAEIOU\xff");
    assert_eq!(
        set,
        ByteSet::from_bytes(b"aeiou") | ByteSet::from_bytes(b"AEIOU\xff")
    );
    assert_eq!(set.len(), 11);
}

#[test]
fn bit_operators_match_member_by_member() {
    let left = ByteSet::from_bytes(b"abcdef0123");
    let right = ByteSet::from_bytes(b"aeiou0123456789");

    for byte in 0..=u8::MAX {
        let in_left = left.contains(byte);
        let in_right = right.contains(byte);
        assert_eq!((left | right).contains(byte), in_left || in_right, "{byte}");
        assert_eq!((left & right).contains(byte), in_left && in_right, "{byte}");
        assert_eq!((left ^ right).contains(byte), in_left != in_right, "{byte}");
        assert_eq!(
            (left - right).contains(byte),
            in_left && !in_right,
            "{byte}"
        );
        assert_eq!((!left).contains(byte), !in_left, "{byte}");
    }
}

#[test]
fn assigning_operators_match_their_binary_forms() {
    let left = ByteSet::from_bytes(b"abcdef0123");
    let right = ByteSet::from_bytes(b"aeiou0123456789");

    let mut union = left;
    union |= right;
    let mut intersection = left;
    intersection &= right;
    let mut symmetric_difference = left;
    symmetric_difference ^= right;
    let mut difference = left;
    difference -= right;

    assert_eq!(union, left | right);
    assert_eq!(intersection, left & right);
    assert_eq!(symmetric_difference, left ^ right);
    assert_eq!(difference, left - right);
}

#[test]
fn members_are_listed_in_ascending_order() {
    assert_eq!(ByteSet::new().members(), b"");
    assert_eq!(ByteSet::from_bytes(b"z\xff\x00az").members(), b"\x00az\xff");
    assert_eq!(ByteSet::full().members(), (0..=255).collect::<Vec<u8>>());
}
