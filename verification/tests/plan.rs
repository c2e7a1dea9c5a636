use fearless_simd::Level;
use memchr_n::bitset::ByteRange;
use memchr_n::engine::Engine;
use memchr_n::nibbles::{extract_fixed_nibble_table, NibbleLookup};
use memchr_n::plan::{KernelKind, SearchPlan};
use memchr_n::search::{BitsetLookup, IterState};
use memchr_n::swar::kernels as swar_kernels;
use memchr_n::vector::has_byte_shuffle;
use memchr_n::vector::kernels as vector_kernels;
use memchr_n::ByteSet;

fn haystack() -> Vec<u8> {
    let mut haystack = Vec::with_capacity(300);
    for i in 0..300usize {
        haystack.push((i * 37 % 256) as u8);
    }
    haystack
}

fn scalar_offsets(haystack: &[u8], member: &dyn Fn(u8) -> bool) -> Vec<usize> {
    let mut offsets = Vec::new();
    for (offset, &byte) in haystack.iter().enumerate() {
        if member(byte) {
            offsets.push(offset);
        }
    }
    offsets
}

fn batched_offsets(plan: &SearchPlan, haystack: &[u8]) -> Vec<usize> {
    let mut state = IterState {
        haystack,
        scan_offset: 0,
        match_base: 0,
    };
    let mut offsets = Vec::new();
    while state.scan_offset != haystack.len() {
        let scan_offset = state.scan_offset;
        let mut bits = plan.next_match_batch(&mut state);
        assert!(state.scan_offset > scan_offset, "batch did not advance");
        assert!(
            state.scan_offset <= haystack.len(),
            "batch advanced beyond the haystack"
        );
        while bits != 0 {
            offsets.push(state.match_base + bits.trailing_zeros() as usize);
            bits &= bits - 1;
        }
    }
    offsets
}

fn assert_operations(plan: &SearchPlan, case: &str, member: &dyn Fn(u8) -> bool) {
    let haystack = haystack();
    let expected = scalar_offsets(&haystack, member);

    assert_eq!(
        plan.first_match(&haystack),
        expected.first().copied(),
        "{case}"
    );
    assert_eq!(plan.count_all(&haystack), expected.len(), "{case}");
    assert_eq!(batched_offsets(plan, &haystack), expected, "{case}");

    assert_eq!(plan.first_match(&[]), None, "{case} on empty input");
    assert_eq!(plan.count_all(&[]), 0, "{case} on empty input");
    let mut state = IterState {
        haystack: &[],
        scan_offset: 0,
        match_base: 0,
    };
    let bits = plan.next_match_batch(&mut state);
    assert_eq!(bits, 0, "{case} on empty input");
    assert_eq!(state.scan_offset, 0, "{case} on empty input");
}

fn assert_plan(plan: SearchPlan, case: &str, kind: KernelKind, member: &dyn Fn(u8) -> bool) {
    assert_eq!(
        format!("{:?}", plan.kernel_kind()),
        format!("{kind:?}"),
        "{case}"
    );
    assert_operations(&plan, case, member);
}

fn assert_swar_plan(
    plan: SearchPlan,
    case: &str,
    kind: KernelKind,
    member: &dyn Fn(u8) -> bool,
) {
    match plan.engine() {
        Engine::Swar => {}
        Engine::Vector(_) => panic!("{case} reported a vector engine"),
    }
    assert_plan(plan, case, kind, member);
}

fn assert_vector_plan(
    plan: SearchPlan,
    case: &str,
    level: Level,
    kind: KernelKind,
    member: &dyn Fn(u8) -> bool,
) {
    match plan.engine() {
        Engine::Vector(selected) => {
            assert_eq!(format!("{selected:?}"), format!("{level:?}"), "{case}")
        }
        Engine::Swar => panic!("{case} reported a SWAR engine"),
    }
    assert_plan(plan, case, kind, member);
}

const NEEDLES: [u8; 3] = [b'a', 7, 200];
const RANGE: ByteRange = ByteRange {
    start: 40,
    last: 90,
};
const EXCLUDED: u8 = 17;

fn any_of(count: usize) -> impl Fn(u8) -> bool {
    move |byte| {
        let mut found = false;
        for &needle in &NEEDLES[..count] {
            found |= byte == needle;
        }
        found
    }
}

fn in_range(byte: u8) -> bool {
    (RANGE.start..=RANGE.last).contains(&byte)
}

fn not_excluded(byte: u8) -> bool {
    byte != EXCLUDED
}

fn scattered_set() -> ByteSet {
    let mut set = ByteSet::new();
    for byte in [0u8, 3, 31, 64, 129, 200, 251, 255] {
        set.add(byte);
    }
    set
}

/// The eight members of a `SmallSet`, which needs no shared nibble.
const SMALL_SET: [u8; 8] = [0x01, 0x13, 0x25, 0x37, 0x49, 0x5B, 0x6D, 0x7F];

/// Members sharing a low nibble, which `FixedNibbleSet` indexes by the high one.
const FIXED_NIBBLE_SET: [u8; 5] = [0x03, 0x23, 0x53, 0xA3, 0xF3];

fn contains(set: &[u8], byte: u8) -> bool {
    let mut found = false;
    for &member in set {
        found |= member == byte;
    }
    found
}

fn small_set_kernel() -> memchr_n::vector::kernels::SmallSet {
    let mut lo_lookup = NibbleLookup::default();
    let mut hi_lookup = NibbleLookup::default();
    for (i, &item) in SMALL_SET.iter().enumerate() {
        lo_lookup.set(item & 0x0F, i as u8);
        hi_lookup.set(item >> 4, i as u8);
    }
    memchr_n::vector::kernels::SmallSet::new(lo_lookup, hi_lookup)
}

fn fixed_nibble_kernel() -> memchr_n::vector::kernels::FixedNibbleSet {
    let table = extract_fixed_nibble_table(&FIXED_NIBBLE_SET)
        .expect("the members share their low nibble");
    memchr_n::vector::kernels::FixedNibbleSet::new(table)
}

#[test]
fn swar_constructor_pairs_every_stored_kernel_with_its_operations() {
    assert_swar_plan(
        SearchPlan::swar(swar_kernels::AnyOf::new([NEEDLES[0]])),
        "swar AnyOf<1>",
        KernelKind::OneByte,
        &any_of(1),
    );
    assert_swar_plan(
        SearchPlan::swar(swar_kernels::AnyOf::new([NEEDLES[0], NEEDLES[1]])),
        "swar AnyOf<2>",
        KernelKind::TwoBytes,
        &any_of(2),
    );
    assert_swar_plan(
        SearchPlan::swar(swar_kernels::AnyOf::new(NEEDLES)),
        "swar AnyOf<3>",
        KernelKind::ThreeBytes,
        &any_of(3),
    );
    assert_swar_plan(
        SearchPlan::swar(swar_kernels::OneRange::new(RANGE)),
        "swar OneRange",
        KernelKind::OneRange,
        &in_range,
    );
    assert_swar_plan(
        SearchPlan::swar(swar_kernels::NotByte::new(EXCLUDED)),
        "swar NotByte",
        KernelKind::NotByte,
        &not_excluded,
    );
    let set = scattered_set();
    assert_swar_plan(
        SearchPlan::swar(BitsetLookup::new(set)),
        "swar BitsetLookup",
        KernelKind::BitsetLookup,
        &move |byte| set.contains(byte),
    );
}

#[test]
fn vector_constructor_pairs_every_stored_kernel_with_its_operations() {
    for level in [Level::baseline(), Level::new()] {
        let at = format!("at {level:?}");
        assert_vector_plan(
            SearchPlan::vector(level, vector_kernels::AnyOf::new([NEEDLES[0]])),
            &format!("vector AnyOf<1> {at}"),
            level,
            KernelKind::OneByte,
            &any_of(1),
        );
        assert_vector_plan(
            SearchPlan::vector(level, vector_kernels::AnyOf::new([NEEDLES[0], NEEDLES[1]])),
            &format!("vector AnyOf<2> {at}"),
            level,
            KernelKind::TwoBytes,
            &any_of(2),
        );
        assert_vector_plan(
            SearchPlan::vector(level, vector_kernels::AnyOf::new(NEEDLES)),
            &format!("vector AnyOf<3> {at}"),
            level,
            KernelKind::ThreeBytes,
            &any_of(3),
        );
        assert_vector_plan(
            SearchPlan::vector(level, vector_kernels::OneRange::new(RANGE)),
            &format!("vector OneRange {at}"),
            level,
            KernelKind::OneRange,
            &in_range,
        );
        assert_vector_plan(
            SearchPlan::vector(level, vector_kernels::NotByte::new(EXCLUDED)),
            &format!("vector NotByte {at}"),
            level,
            KernelKind::NotByte,
            &not_excluded,
        );
        let set = scattered_set();
        assert_vector_plan(
            SearchPlan::vector(level, BitsetLookup::new(set)),
            &format!("vector BitsetLookup {at}"),
            level,
            KernelKind::BitsetLookup,
            &move |byte| set.contains(byte),
        );

        // The shuffle kernels are only ever planned for a level that shuffles bytes.
        if !has_byte_shuffle(level) {
            continue;
        }
        assert_vector_plan(
            SearchPlan::vector(level, small_set_kernel()),
            &format!("vector SmallSet {at}"),
            level,
            KernelKind::SmallSet,
            &|byte| contains(&SMALL_SET, byte),
        );
        assert_vector_plan(
            SearchPlan::vector(level, fixed_nibble_kernel()),
            &format!("vector FixedNibbleSet {at}"),
            level,
            KernelKind::FixedNibble,
            &|byte| contains(&FIXED_NIBBLE_SET, byte),
        );
    }
}

#[test]
fn never_constructor_matches_nothing() {
    assert_swar_plan(SearchPlan::never(), "never", KernelKind::Never, &|_| false);
}
