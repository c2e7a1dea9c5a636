//! What holds of searches as a whole, over and above what each function promises.

use crate::bits;
use crate::bitset;
use crate::bitset::ByteRange;
use crate::bitset::ByteSet;
use crate::bytes;
use crate::bytes::{Bytes, Form};
use crate::engine;
use crate::engine::{Backend, Engine};
use crate::kind;
use crate::kind::Kind;
use crate::memchr;
use crate::memchr::MemchrN;
use crate::nibbles;
use crate::nibbles::{FixedNibble, NibbleLookup};
use crate::plan::{KernelKind, SearchPlan};
use crate::search;
use crate::search::{IterState, MatchedBitset};
use crate::text;
use crate::vector;
use core::ops::Bound;
use fearless_simd::Level;
use vstd::prelude::*;
use vstd::set_lib::*;
use vstd::std_specs::cmp::PartialEqSpec;
use vstd::std_specs::ops::{BitAndSpec, BitOrSpec, BitXorSpec, NotSpec, SubSpec};

verus! {

// ---------------------------------------------------------------------------------------------
// Offsets.

/// The offsets of the matches ascend, lie within the haystack, and name every matching byte and no
/// other.
pub proof fn law_offsets_exact(set: Set<u8>, haystack: Seq<u8>)
    requires
        haystack.len() <= usize::MAX,
    ensures
        forall|i: int, j: int|
            0 <= i < j < search::match_offsets(set, haystack).len()
                ==> #[trigger] search::match_offsets(set, haystack)[i]
                < #[trigger] search::match_offsets(set, haystack)[j],
        forall|at: usize| #[trigger]
            search::match_offsets(set, haystack).contains(at) <==> at < haystack.len()
                && set.contains(haystack[at as int]),
{
    let p = search::hits(set, haystack);
    let offsets = search::match_offsets(set, haystack);
    bits::lemma_positions_exact(p, 0, haystack.len() as int);
    assert forall|at: usize| #[trigger] offsets.contains(at) implies at < haystack.len()
        && set.contains(haystack[at as int]) by {
        let k = offsets.index_of(at);
        assert(p(offsets[k] as int));
    }
    assert forall|at: usize| at < haystack.len() && set.contains(
        haystack[at as int],
    ) implies #[trigger] offsets.contains(at) by {
        assert(p(at as int));
    }
}

/// The first item of a list, if there is one.
pub open spec fn head(offsets: Seq<usize>) -> Option<usize> {
    if offsets.len() > 0 {
        Some(offsets[0])
    } else {
        None
    }
}

/// A search for the first match finds the first of all matches, so that it agrees with the first
/// offset that a walk yields; in particular its outcome does not depend on the kernel that runs
/// it.
pub proof fn law_find_is_first_offset(set: Set<u8>, haystack: Seq<u8>, found: Option<usize>)
    requires
        haystack.len() <= usize::MAX,
    ensures
        search::is_first_match(set, haystack, found) <==> found == head(
            search::match_offsets(set, haystack),
        ),
{
    let p = search::hits(set, haystack);
    let offsets = search::match_offsets(set, haystack);
    let len = haystack.len() as int;
    bits::lemma_positions_exact(p, 0, len);
    if search::is_first_match(set, haystack, found) {
        match found {
            Some(at) => {
                bits::lemma_positions_first(p, 0, at as int, len);
            },
            None => {
                bits::lemma_positions_none(p, 0, len);
            },
        }
    }
    if found == head(offsets) {
        assert forall|i: int| 0 <= i < len && set.contains(#[trigger] haystack[i]) implies found
            is Some && found->0 <= i by {
            assert(p(i));
            assert(offsets.contains(i as usize));
            let k = offsets.index_of(i as usize);
            assert(offsets[0] <= offsets[k]);
        }
        if found is Some {
            assert(p(offsets[0] as int));
        }
    }
}

/// Two searches for the same set in the same haystack find the same match, whatever kernels and
/// engines run them.
pub proof fn law_find_is_unique(
    set: Set<u8>,
    haystack: Seq<u8>,
    first: Option<usize>,
    second: Option<usize>,
)
    requires
        search::is_first_match(set, haystack, first),
        search::is_first_match(set, haystack, second),
    ensures
        first == second,
{
    if let Some(a) = first {
        if let Some(b) = second {
            if a < b {
                assert(set.contains(haystack[a as int]));
            }
            if b < a {
                assert(set.contains(haystack[b as int]));
            }
        }
    }
}

/// Searching the rest of a haystack, again and again from just behind the last match, finds the
/// same matches as one walk over the whole haystack.
pub proof fn law_find_in_rest(set: Set<u8>, haystack: Seq<u8>, start: int, found: Option<usize>)
    requires
        haystack.len() <= usize::MAX,
        0 <= start <= haystack.len(),
        search::is_first_match(set, haystack.skip(start), found),
    ensures
        head(bits::from_offset(search::match_offsets(set, haystack), start)) == match found {
            Some(at) => Some((start + at) as usize),
            None => None,
        },
{
    let p = search::hits(set, haystack);
    let len = haystack.len() as int;
    let rest = haystack.skip(start);
    bits::lemma_positions_from(p, 0, start, len);
    match found {
        Some(at) => {
            assert forall|i: int| start <= i < start + at implies !#[trigger] p(i) by {
                assert(rest[i - start] == haystack[i]);
            }
            assert(rest[at as int] == haystack[start + at]);
            bits::lemma_positions_first(p, start, start + at, len);
        },
        None => {
            assert forall|i: int| start <= i < len implies !#[trigger] p(i) by {
                assert(rest[i - start] == haystack[i]);
            }
            bits::lemma_positions_none(p, start, len);
        },
    }
}

/// Nothing matches the empty set, and everything matches the full one.
pub proof fn law_extreme_sets(haystack: Seq<u8>)
    ensures
        search::match_offsets(Set::empty(), haystack).len() == 0,
        search::match_offsets(Set::full(), haystack).len() == haystack.len(),
{
    let len = haystack.len() as int;
    bits::lemma_positions_none(search::hits(Set::empty(), haystack), 0, len);
    bits::lemma_count_full(search::hits(Set::full(), haystack), 0, len);
}

/// Every byte of a haystack matches either a set or its complement.
pub proof fn law_complement_counts(set: Set<u8>, haystack: Seq<u8>)
    ensures
        search::match_offsets(set, haystack).len() + search::match_offsets(
            set.complement(),
            haystack,
        ).len() == haystack.len(),
    decreases haystack.len(),
{
    let (p, q) = (search::hits(set, haystack), search::hits(set.complement(), haystack));
    lemma_counts_add_up(p, q, haystack.len() as int);
}

proof fn lemma_counts_add_up(p: spec_fn(int) -> bool, q: spec_fn(int) -> bool, len: int)
    requires
        0 <= len,
        forall|i: int| #[trigger] p(i) != q(i),
    ensures
        bits::count(p, 0, len) + bits::count(q, 0, len) == len,
    decreases len,
{
    if len > 0 {
        lemma_counts_add_up(p, q, len - 1);
        bits::lemma_positions_split(p, 0, len - 1, len);
        bits::lemma_positions_split(q, 0, len - 1, len);
        bits::lemma_count_one(p, len - 1);
        bits::lemma_count_one(q, len - 1);
        assert(p(len - 1) != q(len - 1));
    }
}

// ---------------------------------------------------------------------------------------------
// Walks.

/// What is still to be yielded after `n` calls of `next`.
pub open spec fn after_next(pending: Seq<usize>, n: nat) -> Seq<usize>
    decreases n,
{
    if n == 0 {
        pending
    } else {
        let before = after_next(pending, (n - 1) as nat);
        if before.len() > 0 {
            before.drop_first()
        } else {
            Seq::empty()
        }
    }
}

/// Skipping `n` matches and yielding the next one is the same as calling `next` one time more than
/// that and keeping the last offset: the same offset is yielded and the same ones are left.
pub proof fn law_nth_is_repeated_next(pending: Seq<usize>, n: nat)
    ensures
        head(after_next(pending, n)) == if n < pending.len() {
            Some(pending[n as int])
        } else {
            None
        },
        after_next(pending, n + 1) == if n < pending.len() {
            pending.skip((n + 1) as int)
        } else {
            Seq::empty()
        },
{
    lemma_after_next(pending, n);
    lemma_after_next(pending, n + 1);
}

proof fn lemma_after_next(pending: Seq<usize>, n: nat)
    ensures
        after_next(pending, n) == if n <= pending.len() {
            pending.skip(n as int)
        } else {
            Seq::empty()
        },
    decreases n,
{
    if n > 0 {
        lemma_after_next(pending, (n - 1) as nat);
        if n <= pending.len() {
            assert(pending.skip(n - 1).drop_first() =~= pending.skip(n as int));
        } else {
            assert(after_next(pending, n) =~= Seq::empty());
        }
    } else {
        assert(pending.skip(0) =~= pending);
    }
}

/// A walk that has ended stays ended.
pub proof fn law_walk_is_fused(pending: Seq<usize>, n: nat, more: nat)
    requires
        after_next(pending, n).len() == 0,
    ensures
        after_next(pending, n + more).len() == 0,
    decreases more,
{
    if more > 0 {
        law_walk_is_fused(pending, n, (more - 1) as nat);
    }
}

/// A walk yields each of its offsets, in order, and then ends.
pub proof fn law_walk_yields_all(pending: Seq<usize>)
    ensures
        forall|n: nat|
            n < pending.len() ==> head(#[trigger] after_next(pending, n)) == Some(
                pending[n as int],
            ),
        after_next(pending, pending.len()).len() == 0,
{
    assert forall|n: nat| n < pending.len() implies head(#[trigger] after_next(pending, n)) == Some(
        pending[n as int],
    ) by {
        lemma_after_next(pending, n);
    }
    lemma_after_next(pending, pending.len());
}

/// Whether offsets ascend.
pub open spec fn ascending(offsets: Seq<usize>) -> bool {
    forall|i: int, j: int| 0 <= i < j < offsets.len() ==> offsets[i] < offsets[j]
}

/// Advancing keeps the offsets at or behind the index and no others, in their order; so it never
/// brings back an offset that is no longer pending.
pub proof fn law_advance_keeps_what_follows(pending: Seq<usize>, idx: int)
    requires
        ascending(pending),
    ensures
        ascending(bits::from_offset(pending, idx)),
        forall|at: usize| #[trigger]
            bits::from_offset(pending, idx).contains(at) <==> pending.contains(at) && at >= idx,
        bits::from_offset(pending, idx).len() <= pending.len(),
    decreases pending.len(),
{
    let keep = |at: usize| at >= idx;
    reveal(Seq::filter);
    if pending.len() > 0 {
        let shorter = pending.drop_last();
        law_advance_keeps_what_follows(shorter, idx);
        let kept = bits::from_offset(pending, idx);
        let kept_shorter = bits::from_offset(shorter, idx);
        assert(shorter.filter(keep) == kept_shorter);
        if pending.last() >= idx {
            assert(kept == kept_shorter.push(pending.last()));
            assert forall|i: int, j: int| 0 <= i < j < kept.len() implies kept[i] < kept[j] by {
                if j == kept_shorter.len() {
                    assert(kept_shorter.contains(kept_shorter[i]));
                    assert(shorter.contains(kept_shorter[i]));
                    let k = shorter.index_of(kept_shorter[i]);
                    assert(pending[k] < pending.last());
                }
            }
        }
        assert forall|at: usize| #[trigger] kept.contains(at) <==> pending.contains(at) && at
            >= idx by {
            if kept.contains(at) {
                let k = kept.index_of(at);
                if pending.last() >= idx && k == kept_shorter.len() {
                    assert(pending[pending.len() - 1] == at);
                } else {
                    assert(kept_shorter[k] == at);
                    assert(kept_shorter.contains(at));
                    let m = shorter.index_of(at);
                    assert(pending[m] == at);
                }
            }
            if pending.contains(at) && at >= idx {
                let k = pending.index_of(at);
                if k < pending.len() - 1 {
                    assert(shorter[k] == at);
                    assert(kept_shorter.contains(at));
                    let m = kept_shorter.index_of(at);
                    assert(kept[m] == at);
                } else {
                    assert(kept[kept_shorter.len() as int] == at);
                }
            }
        }
    } else {
        assert(bits::from_offset(pending, idx) =~= Seq::empty());
    }
}

/// Advancing to an index that is not behind the first pending offset has no effect.
pub proof fn law_advance_back_changes_nothing(pending: Seq<usize>, idx: int)
    requires
        ascending(pending),
        pending.len() > 0 ==> idx <= pending[0],
    ensures
        bits::from_offset(pending, idx) == pending,
{
    assert forall|k: int| 0 <= k < pending.len() implies #[trigger] pending[k] >= idx by {
        assert(k == 0 || pending[0] < pending[k]);
    }
    bits::lemma_filter_keeps_all(pending, |at: usize| at >= idx);
}

/// Advancing past the end of the haystack ends the walk.
pub proof fn law_advance_past_end_exhausts(set: Set<u8>, haystack: Seq<u8>, from: int, idx: int)
    requires
        haystack.len() <= usize::MAX,
        haystack.len() <= idx,
    ensures
        bits::from_offset(
            bits::from_offset(search::match_offsets(set, haystack), from),
            idx,
        ).len() == 0,
{
    let offsets = search::match_offsets(set, haystack);
    law_offsets_exact(set, haystack);
    assert(ascending(offsets));
    law_advance_keeps_what_follows(offsets, from);
    let pending = bits::from_offset(offsets, from);
    assert forall|k: int| 0 <= k < pending.len() implies !(#[trigger] pending[k] >= idx) by {
        assert(pending.contains(pending[k]));
        assert(offsets.contains(pending[k]));
    }
    bits::lemma_filter_drops_all(pending, |at: usize| at >= idx);
}

/// Advancing twice is advancing once to the further index.
pub proof fn law_advance_twice(pending: Seq<usize>, first: int, second: int)
    ensures
        bits::from_offset(bits::from_offset(pending, first), second) == bits::from_offset(
            pending,
            if first < second {
                second
            } else {
                first
            },
        ),
    decreases pending.len(),
{
    let further = if first < second {
        second
    } else {
        first
    };
    let (keep_first, keep_second) = (|at: usize| at >= first, |at: usize| at >= second);
    let keep_further = |at: usize| at >= further;
    reveal(Seq::filter);
    if pending.len() > 0 {
        let shorter = pending.drop_last();
        law_advance_twice(shorter, first, second);
        let kept = shorter.filter(keep_first);
        if pending.last() >= first {
            let grown = kept.push(pending.last());
            assert(pending.filter(keep_first) == grown);
            assert(grown.drop_last() =~= kept);
            assert(grown.last() == pending.last());
        }
        assert(pending.filter(keep_further) == if pending.last() >= further {
            shorter.filter(keep_further).push(pending.last())
        } else {
            shorter.filter(keep_further)
        });
    } else {
        assert(pending.filter(keep_first) =~= pending);
        assert(pending.filter(keep_further) =~= pending);
    }
}

/// A batch and what is left to scan behind it hold exactly the matches that were left to scan
/// before, so that scanning batch by batch loses no match and repeats none.
pub proof fn law_batches_partition(
    set: Set<u8>,
    before: IterState,
    after: IterState,
    matched: MatchedBitset,
)
    requires
        search::is_next_batch(set, before, after, matched),
    ensures
        ({
            let matching = search::hits(set, before.haystack@);
            let len = before.haystack@.len() as int;
            let (base, end) = (after.match_base as int, after.scan_offset as int);
            bits::positions(matching, before.scan_offset as int, len) == bits::positions(
                |i: int| bits::bit128(matched, i - base),
                base,
                end,
            ) + bits::positions(matching, end, len)
        }),
{
    let matching = search::hits(set, before.haystack@);
    let len = before.haystack@.len() as int;
    let (from, base, end) = (
        before.scan_offset as int,
        after.match_base as int,
        after.scan_offset as int,
    );
    let named = |i: int| bits::bit128(matched, i - base);
    bits::lemma_positions_split(matching, from, base, len);
    bits::lemma_positions_none(matching, from, base);
    bits::lemma_positions_split(matching, base, end, len);
    assert forall|i: int| base <= i < end implies #[trigger] matching(i) == named(i) by {
        assert(base + (i - base) == i);
    }
    bits::lemma_positions_agree(matching, named, base, end);
    assert(bits::positions(matching, from, len) =~= bits::positions(named, base, end)
        + bits::positions(matching, end, len));
}

// ---------------------------------------------------------------------------------------------
// Searchers.

/// Searchers for the same set on the same engine use the same kernel on the same engine, however
/// the set was described.
pub proof fn law_same_set_same_plan(
    set: Set<u8>,
    engine: Engine,
    first: SearchPlan,
    second: SearchPlan,
)
    requires
        memchr::plans(first, set, engine),
        memchr::plans(second, set, engine),
    ensures
        first@ == second@,
        first.spec_kernel_kind() == second.spec_kernel_kind(),
        first.spec_engine() == second.spec_engine(),
{
}

/// The kernels that shuffle bytes are planned only for instruction sets that can, and table
/// lookups never for vectors that cannot.
pub proof fn law_shuffles_where_supported(set: Set<u8>, engine: Engine, plan: SearchPlan)
    requires
        memchr::plans(plan, set, engine),
        plan.spec_kernel_kind() == KernelKind::SmallSet || plan.spec_kernel_kind()
            == KernelKind::FixedNibble || plan.spec_kernel_kind() == KernelKind::BitsetLookup,
    ensures
        plan.spec_engine() matches Engine::Vector(level) ==> vector::shuffles(level),
        plan.spec_kernel_kind() != KernelKind::BitsetLookup ==> plan.spec_engine() is Vector,
{
}

/// A set that can be described in one of the simple ways is never looked up in a table.
pub proof fn law_simple_sets_need_no_table(set: Set<u8>, engine: Engine, plan: SearchPlan)
    requires
        memchr::plans(plan, set, engine),
        set.len() <= 3 || bitset::is_range(set) || bitset::is_all_but_one(set),
    ensures
        plan.spec_kernel_kind() != KernelKind::BitsetLookup,
        plan.spec_kernel_kind() != KernelKind::SmallSet,
        plan.spec_kernel_kind() != KernelKind::FixedNibble,
{
    if bitset::is_all_but_one(set) {
        let byte = choose|byte: u8| set == #[trigger] Set::<u8>::full().remove(byte);
        bitset::lemma_set_len(set);
        law_complement_len(set);
        assert(set.complement() =~= set![byte]);
    }
}

/// The kind that matches a set most cheaply does not depend on the order in which its members are
/// known, but for the order in which up to three of them, or the groups of up to eight, are
/// listed.
pub proof fn law_kind_ignores_order(
    set: Set<u8>,
    fast_shuffles: bool,
    first: Kind,
    first_items: Seq<u8>,
    second: Kind,
    second_items: Seq<u8>,
)
    requires
        kind::is_cheapest(first, set, first_items, fast_shuffles),
        kind::is_cheapest(second, set, second_items, fast_shuffles),
    ensures
        first@ == second@,
        first is AnyByte == second is AnyByte,
        first is SmallSet == second is SmallSet,
        first is ConstantNibble == second is ConstantNibble,
        first is OneByte == second is OneByte,
        first is TwoBytes == second is TwoBytes,
        first is ThreeBytes == second is ThreeBytes,
        first is OneRange == second is OneRange,
        first is Never == second is Never,
{
}

// ---------------------------------------------------------------------------------------------
// Sets.

/// A set and its complement hold each byte once between them.
pub proof fn law_complement_len(set: Set<u8>)
    ensures
        set.len() + set.complement().len() == 256,
        set.complement().complement() == set,
{
    bitset::lemma_set_len(set);
    bitset::lemma_set_len(set.complement());
    let (p, q) = (bitset::membership(set), bitset::membership(set.complement()));
    let inside = |i: int| set.contains(i as u8);
    let outside = |i: int| !set.contains(i as u8);
    bits::lemma_positions_agree(p, inside, 0, 256);
    bits::lemma_positions_agree(q, outside, 0, 256);
    lemma_counts_add_up(inside, outside, 256);
    assert(set.complement().complement() =~= set);
}

/// How the combinations of two sets relate: what is in exactly one of them is in their union but
/// not in their intersection, a difference is an intersection with a complement, and complements
/// turn unions into intersections.
pub proof fn law_combinations(a: Set<u8>, b: Set<u8>)
    ensures
        a.difference(b).union(b.difference(a)) == a.union(b).difference(a.intersect(b)),
        a.difference(b) == a.intersect(b.complement()),
        a.union(b).complement() == a.complement().intersect(b.complement()),
        a.intersect(b).complement() == a.complement().union(b.complement()),
{
    assert(a.difference(b).union(b.difference(a)) =~= a.union(b).difference(a.intersect(b)));
    assert(a.difference(b) =~= a.intersect(b.complement()));
    assert(a.union(b).complement() =~= a.complement().intersect(b.complement()));
    assert(a.intersect(b).complement() =~= a.complement().union(b.complement()));
}

/// Adding a member changes nothing, and neither does removing a byte that is no member; adding a
/// byte and removing it again undoes the adding.
pub proof fn law_add_and_remove(set: Set<u8>, byte: u8)
    ensures
        set.contains(byte) ==> set.insert(byte) == set,
        !set.contains(byte) ==> set.remove(byte) == set,
        !set.contains(byte) ==> set.insert(byte).remove(byte) == set,
        set.contains(byte) ==> set.remove(byte).insert(byte) == set,
{
    assert(set.contains(byte) ==> set.insert(byte) =~= set);
    assert(!set.contains(byte) ==> set.remove(byte) =~= set);
    assert(!set.contains(byte) ==> set.insert(byte).remove(byte) =~= set);
    assert(set.contains(byte) ==> set.remove(byte).insert(byte) =~= set);
}

// ---------------------------------------------------------------------------------------------
// Collected bytes.

/// However bytes are added, what was added is held, nothing else is, and it is held in a way that
/// is due to that many bytes: listed without repetitions, or as a range or in a table when there
/// are too many to list.
pub proof fn law_collecting_is_exact(form: Form, item: u8, items: Seq<u8>, range: ByteRange)
    requires
        form.valid(),
    ensures
        form.with_item(item).valid(),
        form.with_item(item).members() == form.members().insert(item),
        form.with_items(items).valid(),
        form.with_items(items).members() == form.members().union(items.to_set()),
        form.with_range(range).valid(),
        form.with_range(range).members() == form.members().union(range@),
{
    bytes::lemma_with_item(form, item);
    bytes::lemma_with_items(form, items);
    bytes::lemma_with_range(form, range);
}

/// Adding bytes that are members, one or many, changes nothing, not even the way in which the bytes
/// are held; nor does adding an empty range.
pub proof fn law_adding_members_changes_nothing(
    form: Form,
    item: u8,
    items: Seq<u8>,
    range: ByteRange,
)
    requires
        form.valid(),
    ensures
        form.members().contains(item) ==> form.with_item(item) == form,
        items.to_set().subset_of(form.members()) ==> form.with_items(items) == form,
        range@.subset_of(form.members()) ==> form.with_range(range) == form,
        range.start > range.last ==> form.with_range(range) == form,
{
    bytes::lemma_with_item(form, item);
    bytes::lemma_with_items(form, items);
    bytes::lemma_with_range(form, range);
}

/// Adding a range leaves the members, and the list while there is one, that adding its bytes one
/// by one in ascending order leaves; the bytes are held in the same way too, unless they were held
/// as a range before.
pub proof fn law_range_is_added_byte_by_byte(form: Form, range: ByteRange)
    requires
        form.valid(),
    ensures
        form.with_range(range).members() == form.with_items(bytes::range_items(range)).members(),
        form.with_range(range).listed() == form.with_items(bytes::range_items(range)).listed(),
        form !is Range ==> form.with_range(range) == form.with_items(bytes::range_items(range)),
{
    let items = bytes::range_items(range);
    bytes::lemma_with_items(form, items);
    bytes::lemma_with_range(form, range);
    bytes::lemma_range_items(range);
    if let Form::Table(set) = form {
        lemma_table_stays(set, items);
        assert(set.union(items.to_set()) =~= set.union(range@));
    }
}

/// Bytes that are held in a table stay there.
proof fn lemma_table_stays(set: Set<u8>, items: Seq<u8>)
    ensures
        Form::Table(set).with_items(items) == Form::Table(set.union(items.to_set())),
    decreases items.len(),
{
    if items.len() == 0 {
        assert(set.union(items.to_set()) =~= set);
    } else {
        let (before, item) = (items.drop_last(), items.last());
        lemma_table_stays(set, before);
        assert(items =~= before.push(item));
        bitset::lemma_push_to_set(before, item);
        assert(set.union(before.to_set()).insert(item) =~= set.union(items.to_set()));
    }
}

// ---------------------------------------------------------------------------------------------
// Bounds.

/// The two ends of a range are judged apart from each other: a byte is within a pair of bounds
/// exactly when it is within each of them alone. An end that is included is itself a member, one
/// that is excluded is not, and no end keeps nothing out.
pub proof fn law_bounds_are_judged_apart(lower: Bound<u8>, upper: Bound<u8>, end: u8, byte: u8)
    ensures
        bitset::bounded_set((lower, upper)).contains(byte) <==> bitset::bounded_set(
            (lower, Bound::Unbounded),
        ).contains(byte) && bitset::bounded_set((Bound::Unbounded, upper)).contains(byte),
        bitset::bounded_set((Bound::Unbounded, Bound::Unbounded)).contains(byte),
        bitset::bounded_set((Bound::Included(end), Bound::Unbounded)).contains(byte) <==> end
            <= byte,
        bitset::bounded_set((Bound::Excluded(end), Bound::Unbounded)).contains(byte) <==> end
            < byte,
        bitset::bounded_set((Bound::Unbounded, Bound::Included(end))).contains(byte) <==> byte
            <= end,
        bitset::bounded_set((Bound::Unbounded, Bound::Excluded(end))).contains(byte) <==> byte
            < end,
{
}

/// Bounds that meet: whatever the lower bound, the included upper end is a member whenever the
/// lower bound lets it in, and no member lies behind it; whatever the upper bound, the same holds
/// of an included lower end.
pub proof fn law_included_ends_are_members(lower: Bound<u8>, upper: Bound<u8>, end: u8)
    ensures
        bitset::bounded_set((lower, Bound::Included(end))).contains(end) <==> match lower {
            Bound::Included(start) => start <= end,
            Bound::Excluded(start) => start < end,
            Bound::Unbounded => true,
        },
        bitset::bounded_set((Bound::Included(end), upper)).contains(end) <==> match upper {
            Bound::Included(last) => end <= last,
            Bound::Excluded(last) => end < last,
            Bound::Unbounded => true,
        },
        !bitset::bounded_set((lower, Bound::Excluded(end))).contains(end),
        !bitset::bounded_set((Bound::Excluded(end), upper)).contains(end),
        forall|byte: u8|
            bitset::bounded_set((lower, Bound::Included(end))).contains(byte) ==> byte <= end,
        forall|byte: u8|
            bitset::bounded_set((Bound::Included(end), upper)).contains(byte) ==> byte >= end,
{
}

/// Excluding an end is including it and then leaving it out.
pub proof fn law_excluded_ends_are_left_out(lower: Bound<u8>, upper: Bound<u8>, end: u8)
    ensures
        bitset::bounded_set((lower, Bound::Excluded(end))) == bitset::bounded_set(
            (lower, Bound::Included(end)),
        ).remove(end),
        bitset::bounded_set((Bound::Excluded(end), upper)) == bitset::bounded_set(
            (Bound::Included(end), upper),
        ).remove(end),
{
    assert(bitset::bounded_set((lower, Bound::Excluded(end))) =~= bitset::bounded_set(
        (lower, Bound::Included(end)),
    ).remove(end));
    assert(bitset::bounded_set((Bound::Excluded(end), upper)) =~= bitset::bounded_set(
        (Bound::Included(end), upper),
    ).remove(end));
}

// ---------------------------------------------------------------------------------------------
// Comparing and combining sets.

/// Sets compare equal exactly when each byte is a member of both or of neither.
pub proof fn law_equal_sets_have_equal_members(a: ByteSet, b: ByteSet)
    ensures
        a.eq_spec(&b) <==> forall|byte: u8| #[trigger] a@.contains(byte) <==> b@.contains(byte),
        a.eq_spec(&b) <==> a == b,
        a.eq_spec(&b) == b.eq_spec(&a),
        a.eq_spec(&a),
{
    if forall|byte: u8| #[trigger] a@.contains(byte) <==> b@.contains(byte) {
        assert(a@ =~= b@);
    }
    if a@ == b@ {
        a.lemma_same_members(b);
    }
}

/// What the operators make of two sets, byte by byte.
pub proof fn law_operators_decide_byte_by_byte(a: ByteSet, b: ByteSet, byte: u8)
    ensures
        a.not_spec()@.contains(byte) <==> !a@.contains(byte),
        a.bitor_spec(b)@.contains(byte) <==> a@.contains(byte) || b@.contains(byte),
        a.bitand_spec(b)@.contains(byte) <==> a@.contains(byte) && b@.contains(byte),
        a.bitxor_spec(b)@.contains(byte) <==> a@.contains(byte) != b@.contains(byte),
        a.sub_spec(b)@.contains(byte) <==> a@.contains(byte) && !b@.contains(byte),
{
    ByteSet::lemma_with_members(a@.complement());
    ByteSet::lemma_with_members(a@.union(b@));
    ByteSet::lemma_with_members(a@.intersect(b@));
    ByteSet::lemma_with_members(a@.difference(b@).union(b@.difference(a@)));
    ByteSet::lemma_with_members(a@.difference(b@));
}

// ---------------------------------------------------------------------------------------------
// Backends.

/// A backend for words stands for words and one for a level for vectors at that level. The
/// automatic one stands for vectors at the very level that the machine is found to have, and for
/// words only where that is the scalar fallback.
pub proof fn law_backends_fix_the_engine(level: Level, engine: Engine)
    ensures
        engine::serves(Backend::Swar, engine) <==> engine is Swar,
        engine::serves(Backend::Level(level), engine) <==> engine == Engine::Vector(level),
        engine::serves(Backend::Auto, Engine::Vector(level)) <==> call_ensures(
            Level::new,
            (),
            level,
        ) && !(level is Fallback),
        engine::serves(Backend::Auto, Engine::Swar) <==> exists|found: Level|
            found is Fallback && #[trigger] call_ensures(Level::new, (), found),
{
    if engine::serves(Backend::Auto, Engine::Vector(level)) {
        let found = choose|found: Level| #[trigger]
            call_ensures(Level::new, (), found) && Engine::Vector(level) == if found is Fallback {
                Engine::Swar
            } else {
                Engine::Vector(found)
            };
        assert(found == level);
    }
}

// ---------------------------------------------------------------------------------------------
// Kernels.

/// Whether `items` lists the members of `set`, each once, in any order.
pub open spec fn lists(items: Seq<u8>, set: Set<u8>) -> bool {
    &&& items.no_duplicates()
    &&& forall|byte: u8| #[trigger] set.contains(byte) <==> items.contains(byte)
}

/// Whether the members of `set` are the bytes from `first` through `last`.
pub open spec fn fills(set: Set<u8>, first: u8, last: u8) -> bool {
    forall|byte: u8| #[trigger] set.contains(byte) <==> first <= byte <= last
}

/// Whether the members of `set` are the bytes from some byte through another.
pub open spec fn fills_some(set: Set<u8>) -> bool {
    exists|first: u8, last: u8| first <= last && #[trigger] fills(set, first, last)
}

/// Whether all of `items` agree in their low nibbles, or all in their high ones.
pub open spec fn agree_in_a_nibble(items: Seq<u8>) -> bool {
    ||| forall|i: int, j: int|
        0 <= i < items.len() && 0 <= j < items.len() ==> #[trigger] items[i] % 16
            == #[trigger] items[j] % 16
    ||| forall|i: int, j: int|
        0 <= i < items.len() && 0 <= j < items.len() ==> #[trigger] items[i] / 16
            == #[trigger] items[j] / 16
}

/// The byte with the high nibble of one byte and the low nibble of another.
pub open spec fn crossed(high_from: u8, low_from: u8) -> u8 {
    (high_from / 16 * 16 + low_from % 16) as u8
}

/// Whether `group` puts the high nibbles of the members of `set` into at most eight groups, so
/// that high nibbles in one group go with the same low nibbles.
pub open spec fn groups_high_nibbles(set: Set<u8>, group: spec_fn(u8) -> int) -> bool {
    forall|a: u8, b: u8|
        #![trigger set.contains(a), set.contains(b)]
        set.contains(a) && set.contains(b) ==> 0 <= group(a / 16) < 8 && (group(a / 16) == group(
            b / 16,
        ) ==> set.contains(crossed(a, b)))
}

/// Whether `group` puts the low nibbles of the members of `set` into at most eight groups, so that
/// low nibbles in one group go with the same high nibbles.
pub open spec fn groups_low_nibbles(set: Set<u8>, group: spec_fn(u8) -> int) -> bool {
    forall|a: u8, b: u8|
        #![trigger set.contains(a), set.contains(b)]
        set.contains(a) && set.contains(b) ==> 0 <= group(a % 16) < 8 && (group(a % 16) == group(
            b % 16,
        ) ==> set.contains(crossed(a, b)))
}

/// Whether the nibbles of the members of `set` can be put into at most eight groups.
pub open spec fn groups_nibbles(set: Set<u8>) -> bool {
    ||| exists|group: spec_fn(u8) -> int| #[trigger] groups_high_nibbles(set, group)
    ||| exists|group: spec_fn(u8) -> int| #[trigger] groups_low_nibbles(set, group)
}

/// Whether an engine has an instruction that shuffles bytes: words, the scalar fallback and SSE2
/// have none.
pub open spec fn shuffles_bytes(engine: Engine) -> bool {
    match engine {
        Engine::Vector(level) => !(level is Fallback) && !(level is Sse2),
        Engine::Swar => false,
    }
}

/// A list of the members of a set is as long as the set is large.
proof fn lemma_lists(items: Seq<u8>, set: Set<u8>)
    requires
        lists(items, set),
    ensures
        items.to_set() == set,
        items.len() == set.len(),
{
    assert(items.to_set() =~= set);
    items.unique_seq_to_set();
}

/// Filling a range, said in two ways.
proof fn lemma_fills(set: Set<u8>)
    ensures
        fills_some(set) <==> bitset::is_range(set),
{
    if fills_some(set) {
        let (first, last) = choose|first: u8, last: u8|
            first <= last && #[trigger] fills(set, first, last);
        let range = ByteRange { start: first, last };
        assert(set =~= range@);
    }
    if bitset::is_range(set) {
        let range = bitset::range_of(set);
        assert(fills(set, range.start, range.last));
    }
}

/// A set holds every byte but one exactly when it has one member less than there are bytes.
proof fn lemma_all_but_one(set: Set<u8>)
    ensures
        bitset::is_all_but_one(set) <==> set.len() == 255,
{
    law_complement_len(set);
    let others = set.complement();
    bitset::lemma_set_len(others);
    if bitset::is_all_but_one(set) {
        let byte = choose|byte: u8| set == #[trigger] Set::<u8>::full().remove(byte);
        assert(others =~= set![byte]);
    }
    if set.len() == 255 {
        let byte = others.choose();
        assert(others.remove(byte).len() == 0);
        assert forall|other: u8| others.contains(other) implies other == byte by {
            if other != byte {
                assert(others.remove(byte).contains(other));
            }
        }
        assert(set =~= Set::<u8>::full().remove(byte)) by {
            assert forall|other: u8| set.contains(other) == (other != byte) by {
                assert(others.contains(other) == !set.contains(other));
            }
        }
    }
}

/// Having a nibble in common, said in two ways.
proof fn lemma_agree(items: Seq<u8>, set: Set<u8>)
    requires
        lists(items, set),
        items.len() > 0,
    ensures
        agree_in_a_nibble(items) <==> nibbles::shares_a_nibble(set),
{
    let members = bitset::members_of(set);
    lemma_lists(items, set);
    bitset::lemma_members_exact(set);
    bitset::lemma_members_set(set);
    nibbles::lemma_shares_same(items, members);
    assert(nibbles::shares_nibble(FixedNibble::Low, items) == nibbles::shares_nibble(
        FixedNibble::Low,
        members,
    ));
    assert(nibbles::shares_nibble(FixedNibble::High, items) == nibbles::shares_nibble(
        FixedNibble::High,
        members,
    ));
    let first = items[0];
    if nibbles::shares_nibble(FixedNibble::Low, items) {
        assert forall|i: int, j: int| 0 <= i < items.len() && 0 <= j < items.len() implies
            #[trigger] items[i] % 16 == #[trigger] items[j] % 16 by {
            assert(nibbles::fixed_value(FixedNibble::Low, items[i]) == nibbles::fixed_value(
                FixedNibble::Low,
                first,
            ));
            assert(nibbles::fixed_value(FixedNibble::Low, items[j]) == nibbles::fixed_value(
                FixedNibble::Low,
                first,
            ));
        }
    }
    if nibbles::shares_nibble(FixedNibble::High, items) {
        assert forall|i: int, j: int| 0 <= i < items.len() && 0 <= j < items.len() implies
            #[trigger] items[i] / 16 == #[trigger] items[j] / 16 by {
            assert(nibbles::fixed_value(FixedNibble::High, items[i]) == nibbles::fixed_value(
                FixedNibble::High,
                first,
            ));
            assert(nibbles::fixed_value(FixedNibble::High, items[j]) == nibbles::fixed_value(
                FixedNibble::High,
                first,
            ));
        }
    }
    if forall|i: int, j: int|
        0 <= i < items.len() && 0 <= j < items.len() ==> #[trigger] items[i] % 16
            == #[trigger] items[j] % 16 {
        assert forall|i: int| 0 <= i < items.len() implies nibbles::fixed_value(
            FixedNibble::Low,
            #[trigger] items[i],
        ) == nibbles::fixed_value(FixedNibble::Low, first) by {
            assert(items[i] % 16 == items[0] % 16);
        }
    }
    if forall|i: int, j: int|
        0 <= i < items.len() && 0 <= j < items.len() ==> #[trigger] items[i] / 16
            == #[trigger] items[j] / 16 {
        assert forall|i: int| 0 <= i < items.len() implies nibbles::fixed_value(
            FixedNibble::High,
            #[trigger] items[i],
        ) == nibbles::fixed_value(FixedNibble::High, first) by {
            assert(items[i] / 16 == items[0] / 16);
        }
    }
}

/// How the members of a set, listed in any order, decide the kernel: up to three are named; all
/// bytes but one are told by that one; a range is told by its ends; and on an engine that shuffles
/// bytes, up to sixteen that agree in a nibble go into a table of nibbles.
pub proof fn law_members_decide_the_kernel(
    set: Set<u8>,
    items: Seq<u8>,
    engine: Engine,
    plan: SearchPlan,
)
    requires
        memchr::plans(plan, set, engine),
        lists(items, set),
    ensures
        plan@ == items.to_set(),
        plan.spec_kernel_kind() is Never <==> items.len() == 0,
        plan.spec_kernel_kind() is OneByte <==> items.len() == 1,
        plan.spec_kernel_kind() is TwoBytes <==> items.len() == 2,
        plan.spec_kernel_kind() is ThreeBytes <==> items.len() == 3,
        plan.spec_kernel_kind() is NotByte <==> items.len() == 255,
        plan.spec_kernel_kind() is OneRange <==> 4 <= items.len() && items.len() != 255 && fills_some(set),
        plan.spec_kernel_kind() is FixedNibble <==> 4 <= items.len() <= 16 && !fills_some(set)
            && shuffles_bytes(engine) && agree_in_a_nibble(items),
{
    lemma_lists(items, set);
    lemma_fills(set);
    lemma_all_but_one(set);
    if items.len() > 0 {
        lemma_agree(items, set);
    }
}

/// What grouping does in general: sets fall into no more groups than there are names for them,
/// if sets with one name are equal.
proof fn lemma_groups_named(sets: Seq<Set<int>>, name: spec_fn(int) -> int)
    requires
        forall|k: int|
            0 <= k < sets.len() && #[trigger] sets[k] != Set::<int>::empty() ==> 0 <= name(k) < 8,
        forall|j: int, k: int|
            0 <= j < sets.len() && 0 <= k < sets.len() && #[trigger] sets[j] != Set::<int>::empty()
                && #[trigger] sets[k] != Set::<int>::empty() && name(j) == name(k) ==> sets[j]
                == sets[k],
    ensures
        nibbles::groups(sets).len() <= 8,
{
    let groups = nibbles::groups(sets);
    nibbles::lemma_groups_distinct(sets);
    lemma_groups_from(sets);
    let at = |g: int| sets.index_of(groups[g]);
    let names = Seq::new(groups.len(), |g: int| name(at(g)));
    assert forall|g: int| 0 <= g < groups.len() implies 0 <= #[trigger] at(g) < sets.len()
        && sets[at(g)] == groups[g] && 0 <= names[g] < 8 by {
        assert(groups.contains(groups[g]));
        assert(sets.contains(groups[g]));
    }
    assert forall|g: int, h: int| 0 <= g < names.len() && 0 <= h < names.len() && g != h implies
        names[g] != names[h] by {
        assert(sets[at(g)] == groups[g] && sets[at(h)] == groups[h]);
        assert(groups[g] != groups[h]);
    }
    names.unique_seq_to_set();
    let eight = set_int_range(0, 8);
    lemma_int_range(0, 8);
    assert forall|n: int| names.to_set().contains(n) implies eight.contains(n) by {
        let g = names.index_of(n);
        assert(0 <= at(g) < sets.len());
        assert(names[g] == n);
    }
    lemma_len_subset(names.to_set(), eight);
}

/// Every group is one of the sets.
proof fn lemma_groups_from(sets: Seq<Set<int>>)
    ensures
        forall|group: Set<int>| #[trigger]
            nibbles::groups(sets).contains(group) ==> sets.contains(group),
    decreases sets.len(),
{
    if sets.len() > 0 {
        let (earlier, last) = (sets.drop_last(), sets.last());
        lemma_groups_from(earlier);
        assert forall|group: Set<int>| #[trigger] nibbles::groups(sets).contains(group) implies
            sets.contains(group) by {
            let g = nibbles::groups(sets).index_of(group);
            if g < nibbles::groups(earlier).len() {
                assert(nibbles::groups(earlier)[g] == group);
                assert(nibbles::groups(earlier).contains(group));
                let k = earlier.index_of(group);
                assert(sets[k] == group);
            } else {
                assert(sets[sets.len() - 1] == group);
            }
        }
    }
}

/// The byte of two nibbles.
proof fn lemma_byte_of(hi: int, lo: int) -> (byte: u8)
    requires
        0 <= hi < 16,
        0 <= lo < 16,
    ensures
        byte == (16 * hi + lo) as u8,
        byte / 16 == hi,
        byte % 16 == lo,
{
    (16 * hi + lo) as u8
}

/// Rows with one name are equal if the names group the high nibbles.
proof fn lemma_rows_named(set: Set<u8>, group: spec_fn(u8) -> int)
    requires
        groups_high_nibbles(set, group),
    ensures
        nibbles::groups(nibbles::rows_of(set)).len() <= 8,
{
    let rows = nibbles::rows_of(set);
    let name = |k: int| group(k as u8);
    assert forall|k: int| 0 <= k < rows.len() && #[trigger] rows[k] != Set::<int>::empty() implies 0
        <= name(k) < 8 by {
        let lo = lemma_some_nibble(rows[k]);
        let a = lemma_byte_of(k, lo);
        assert(set.contains(a));
    }
    assert forall|j: int, k: int|
        0 <= j < rows.len() && 0 <= k < rows.len() && #[trigger] rows[j] != Set::<int>::empty()
            && #[trigger] rows[k] != Set::<int>::empty() && name(j) == name(k) implies rows[j]
        == rows[k] by {
        lemma_row_within(set, group, j, k);
        lemma_row_within(set, group, k, j);
        assert(rows[j] =~= rows[k]);
    }
    lemma_groups_named(rows, name);
}

proof fn lemma_row_within(set: Set<u8>, group: spec_fn(u8) -> int, j: int, k: int)
    requires
        groups_high_nibbles(set, group),
        0 <= j < 16,
        0 <= k < 16,
        nibbles::rows_of(set)[k] != Set::<int>::empty(),
        group(j as u8) == group(k as u8),
    ensures
        nibbles::rows_of(set)[j].subset_of(nibbles::rows_of(set)[k]),
{
    let rows = nibbles::rows_of(set);
    let some_lo = lemma_some_nibble(rows[k]);
    let b = lemma_byte_of(k, some_lo);
    assert(set.contains(b));
    assert forall|lo: int| rows[j].contains(lo) implies rows[k].contains(lo) by {
        let c = lemma_byte_of(j, lo);
        assert(set.contains(c));
        assert(set.contains(crossed(b, c)));
        let d = lemma_byte_of(k, lo);
        assert(crossed(b, c) == d);
    }
}

/// Columns with one name are equal if the names group the low nibbles.
proof fn lemma_columns_named(set: Set<u8>, group: spec_fn(u8) -> int)
    requires
        groups_low_nibbles(set, group),
    ensures
        nibbles::groups(nibbles::columns_of(set)).len() <= 8,
{
    let columns = nibbles::columns_of(set);
    let name = |k: int| group(k as u8);
    assert forall|k: int|
        0 <= k < columns.len() && #[trigger] columns[k] != Set::<int>::empty() implies 0 <= name(k)
        < 8 by {
        let hi = lemma_some_nibble(columns[k]);
        let a = lemma_byte_of(hi, k);
        assert(set.contains(a));
    }
    assert forall|j: int, k: int|
        0 <= j < columns.len() && 0 <= k < columns.len() && #[trigger] columns[j]
            != Set::<int>::empty() && #[trigger] columns[k] != Set::<int>::empty() && name(j)
            == name(k) implies columns[j] == columns[k] by {
        lemma_column_within(set, group, j, k);
        lemma_column_within(set, group, k, j);
        assert(columns[j] =~= columns[k]);
    }
    lemma_groups_named(columns, name);
}

proof fn lemma_column_within(set: Set<u8>, group: spec_fn(u8) -> int, j: int, k: int)
    requires
        groups_low_nibbles(set, group),
        0 <= j < 16,
        0 <= k < 16,
        nibbles::columns_of(set)[k] != Set::<int>::empty(),
        group(j as u8) == group(k as u8),
    ensures
        nibbles::columns_of(set)[j].subset_of(nibbles::columns_of(set)[k]),
{
    let columns = nibbles::columns_of(set);
    let some_hi = lemma_some_nibble(columns[k]);
    let b = lemma_byte_of(some_hi, k);
    assert(set.contains(b));
    assert forall|hi: int| columns[j].contains(hi) implies columns[k].contains(hi) by {
        let c = lemma_byte_of(hi, j);
        assert(set.contains(c));
        assert(set.contains(crossed(c, b)));
        let d = lemma_byte_of(hi, k);
        assert(crossed(c, b) == d);
    }
}

/// The nibbles of a member stand in its row and in its column.
proof fn lemma_in_row_and_column(set: Set<u8>, hi: int, lo: int)
    requires
        0 <= hi < 16,
        0 <= lo < 16,
    ensures
        nibbles::rows_of(set)[hi].contains(lo) == set.contains((16 * hi + lo) as u8),
        nibbles::columns_of(set)[lo].contains(hi) == set.contains((16 * hi + lo) as u8),
{
}

/// Up to eight distinct rows are groups of high nibbles.
proof fn lemma_rows_group(set: Set<u8>)
    requires
        nibbles::groups(nibbles::rows_of(set)).len() <= 8,
    ensures
        exists|group: spec_fn(u8) -> int| #[trigger] groups_high_nibbles(set, group),
{
    let rows = nibbles::rows_of(set);
    let distinct = nibbles::groups(rows);
    nibbles::lemma_groups_distinct(rows);
    let group = |hi: u8| distinct.index_of(rows[hi as int]);
    assert forall|a: u8, b: u8|
        #![trigger set.contains(a), set.contains(b)]
        set.contains(a) && set.contains(b) implies 0 <= group(a / 16) < 8 && (group(a / 16)
        == group(b / 16) ==> set.contains(crossed(a, b))) by {
        let (i, j) = ((a / 16) as int, (b / 16) as int);
        lemma_in_row_and_column(set, i, (a % 16) as int);
        lemma_in_row_and_column(set, j, (b % 16) as int);
        lemma_in_row_and_column(set, i, (b % 16) as int);
        assert(rows[i].contains((a % 16) as int) && rows[j].contains((b % 16) as int));
        assert(distinct.contains(rows[i]) && distinct.contains(rows[j]));
    }
    assert(groups_high_nibbles(set, group));
}

/// Up to eight distinct columns are groups of low nibbles.
proof fn lemma_columns_group(set: Set<u8>)
    requires
        nibbles::groups(nibbles::columns_of(set)).len() <= 8,
    ensures
        exists|group: spec_fn(u8) -> int| #[trigger] groups_low_nibbles(set, group),
{
    let columns = nibbles::columns_of(set);
    let distinct = nibbles::groups(columns);
    nibbles::lemma_groups_distinct(columns);
    let group = |lo: u8| distinct.index_of(columns[lo as int]);
    assert forall|a: u8, b: u8|
        #![trigger set.contains(a), set.contains(b)]
        set.contains(a) && set.contains(b) implies 0 <= group(a % 16) < 8 && (group(a % 16)
        == group(b % 16) ==> set.contains(crossed(a, b))) by {
        let (i, j) = ((a % 16) as int, (b % 16) as int);
        lemma_in_row_and_column(set, (a / 16) as int, i);
        lemma_in_row_and_column(set, (b / 16) as int, j);
        lemma_in_row_and_column(set, (a / 16) as int, j);
        assert(columns[i].contains((a / 16) as int) && columns[j].contains((b / 16) as int));
        assert(distinct.contains(columns[i]) && distinct.contains(columns[j]));
    }
    assert(groups_low_nibbles(set, group));
}

/// Fitting eight groups, said in two ways.
proof fn lemma_groups_nibbles(set: Set<u8>)
    ensures
        groups_nibbles(set) <==> nibbles::fits_nibble_groups(set),
{
    if exists|group: spec_fn(u8) -> int| #[trigger] groups_high_nibbles(set, group) {
        lemma_rows_named(
            set,
            choose|group: spec_fn(u8) -> int| #[trigger] groups_high_nibbles(set, group),
        );
    }
    if exists|group: spec_fn(u8) -> int| #[trigger] groups_low_nibbles(set, group) {
        lemma_columns_named(
            set,
            choose|group: spec_fn(u8) -> int| #[trigger] groups_low_nibbles(set, group),
        );
    }
    if nibbles::groups(nibbles::rows_of(set)).len() <= 8 {
        lemma_rows_group(set);
    }
    if nibbles::groups(nibbles::columns_of(set)).len() <= 8 {
        lemma_columns_group(set);
    }
}

/// A nonempty set has a member.
proof fn lemma_some_nibble(set: Set<int>) -> (member: int)
    requires
        set != Set::<int>::empty(),
    ensures
        set.contains(member),
{
    if forall|i: int| !set.contains(i) {
        assert(set =~= Set::<int>::empty());
    }
    choose|i: int| set.contains(i)
}

/// When bytes are looked up in a table: on an engine that shuffles bytes, only if the nibbles of
/// the members cannot be put into eight groups. How many members there are makes no difference.
pub proof fn law_groups_decide_the_table(set: Set<u8>, engine: Engine, plan: SearchPlan)
    requires
        memchr::plans(plan, set, engine),
        shuffles_bytes(engine),
    ensures
        groups_nibbles(set) ==> !(plan.spec_kernel_kind() is BitsetLookup),
        plan.spec_kernel_kind() is SmallSet ==> groups_nibbles(set),
        plan.spec_kernel_kind() is SmallSet || plan.spec_kernel_kind() is BitsetLookup ==> (
        plan.spec_kernel_kind() is SmallSet <==> groups_nibbles(set)),
{
    lemma_groups_nibbles(set);
}

/// Without an instruction that shuffles bytes, a set is looked up in a table exactly when it has
/// more than three members, lacks more than one byte and fills no range, and no kernel that
/// shuffles is planned.
pub proof fn law_without_shuffles(set: Set<u8>, items: Seq<u8>, engine: Engine, plan: SearchPlan)
    requires
        memchr::plans(plan, set, engine),
        lists(items, set),
        !shuffles_bytes(engine),
    ensures
        plan.spec_kernel_kind() is BitsetLookup <==> 4 <= items.len() && items.len() != 255 && !fills_some(set),
        !(plan.spec_kernel_kind() is SmallSet),
        !(plan.spec_kernel_kind() is FixedNibble),
{
    law_members_decide_the_kernel(set, items, engine, plan);
}

/// A searcher runs on the engine that it is built for. There are two exceptions, which run on
/// words: nothing to search for, and looking bytes up in a table where they cannot be shuffled.
pub proof fn law_searchers_run_on_their_engine(set: Set<u8>, engine: Engine, plan: SearchPlan)
    requires
        memchr::plans(plan, set, engine),
    ensures
        plan.spec_engine() == engine || plan.spec_engine() is Swar,
        plan.spec_engine() != engine ==> set.len() == 0 || plan.spec_kernel_kind() is BitsetLookup
            && !shuffles_bytes(engine),
        set.len() == 0 ==> plan.spec_engine() is Swar,
        plan.spec_kernel_kind() is BitsetLookup && !shuffles_bytes(engine) ==> plan.spec_engine()
            is Swar,
{
}

/// A searcher that is built automatically runs on vectors at the very level that the machine is
/// found to have. It runs on words only where that is the scalar fallback, where there is nothing
/// to search for, or where bytes are to be looked up in a table and cannot be shuffled.
pub proof fn law_automatic_searchers_use_the_found_level(finder: MemchrN, set: Set<u8>)
    requires
        memchr::built(finder, set, Backend::Auto),
    ensures
        finder@ == set,
        exists|found: Level| #[trigger]
            call_ensures(Level::new, (), found) && match finder.spec_plan().spec_engine() {
                Engine::Vector(level) => level == found && !(found is Fallback),
                Engine::Swar => set.len() == 0 || found is Fallback || found is Sse2
                    && finder.spec_plan().spec_kernel_kind() is BitsetLookup,
            },
{
    let engine = choose|engine: Engine| #[trigger]
        engine::serves(Backend::Auto, engine) && memchr::plans(finder.spec_plan(), set, engine);
    match engine {
        Engine::Vector(level) => {
            law_backends_fix_the_engine(level, engine);
            assert(call_ensures(Level::new, (), level));
        },
        Engine::Swar => {
            let found = choose|found: Level|
                found is Fallback && #[trigger] call_ensures(Level::new, (), found);
            assert(call_ensures(Level::new, (), found));
        },
    }
}

/// Searchers that are built for the same bytes with the same backend, by whatever constructor, use
/// the same kernel on the same engine; with the automatic backend, on a machine that is found to
/// have one level.
pub proof fn law_constructors_agree(
    first: MemchrN,
    second: MemchrN,
    set: Set<u8>,
    backend: Backend,
)
    requires
        memchr::built(first, set, backend),
        memchr::built(second, set, backend),
        backend is Auto ==> forall|a: Level, b: Level| #[trigger]
            call_ensures(Level::new, (), a) && #[trigger] call_ensures(Level::new, (), b) ==> a
                == b,
    ensures
        first@ == second@,
        first.spec_plan().spec_kernel_kind() == second.spec_plan().spec_kernel_kind(),
        first.spec_plan().spec_engine() == second.spec_plan().spec_engine(),
{
}

/// The rows and the columns of a set are one matrix, seen from two sides.
pub proof fn law_rows_and_columns(set: Set<u8>, byte: u8)
    ensures
        nibbles::rows_of(set)[(byte / 16) as int].contains((byte % 16) as int) <==> set.contains(
            byte,
        ),
        nibbles::columns_of(set)[(byte % 16) as int].contains((byte / 16) as int) <==> set.contains(
            byte,
        ),
{
    lemma_in_row_and_column(set, (byte / 16) as int, (byte % 16) as int);
    assert(16 * (byte / 16) + byte % 16 == byte);
}

/// There is one group for each distinct nonempty set, and groups come in the order in which their
/// sets first appear: more sets only add groups at the end.
pub proof fn law_groups_are_the_distinct_sets(sets: Seq<Set<int>>, n: int)
    requires
        0 <= n <= sets.len(),
    ensures
        nibbles::groups(sets).no_duplicates(),
        forall|group: Set<int>| #[trigger]
            nibbles::groups(sets).contains(group) <==> sets.contains(group) && group != Set::<
                int,
            >::empty(),
        nibbles::groups(sets.take(n)).is_prefix_of(nibbles::groups(sets)),
    decreases sets.len() - n,
{
    nibbles::lemma_groups_distinct(sets);
    lemma_groups_from(sets);
    let groups = nibbles::groups(sets);
    assert forall|group: Set<int>| #[trigger] groups.contains(group) <==> sets.contains(group)
        && group != Set::<int>::empty() by {
        if groups.contains(group) {
            let g = groups.index_of(group);
            assert(groups[g] != Set::<int>::empty());
        }
        if sets.contains(group) && group != Set::<int>::empty() {
            let k = sets.index_of(group);
            assert(groups.contains(sets[k]));
        }
    }
    if n < sets.len() {
        law_groups_are_the_distinct_sets(sets, n + 1);
        assert(sets.take(n + 1).drop_last() =~= sets.take(n));
        assert(nibbles::groups(sets.take(n)).is_prefix_of(nibbles::groups(sets.take(n + 1))));
    } else {
        assert(sets.take(n) =~= sets);
    }
}

/// A lookup that names groups marks, for each nibble, the group that is its set, and no other; one
/// that lists groups marks, for each nibble, the groups that hold it.
pub proof fn law_lookups_mark_groups(
    keys: NibbleLookup,
    members: NibbleLookup,
    sets: Seq<Set<int>>,
    nibble: int,
    g: int,
)
    requires
        nibbles::names_groups(keys, sets),
        nibbles::lists_groups(members, sets),
        sets.len() == 16,
        nibbles::groups(sets).len() <= 8,
        0 <= nibble < 16,
        0 <= g < 8,
    ensures
        bits::bit(keys.0@[nibble] as u64, g) <==> g < nibbles::groups(sets).len()
            && nibbles::groups(sets)[g] == sets[nibble],
        bits::bit(members.0@[nibble] as u64, g) <==> g < nibbles::groups(sets).len()
            && nibbles::groups(sets)[g].contains(nibble),
{
    let groups = nibbles::groups(sets);
    let entry = keys.0@[nibble];
    nibbles::lemma_groups_distinct(sets);
    bits::lemma_bit_constants();
    if sets[nibble] == Set::<int>::empty() {
        assert(entry == 0);
    } else {
        assert(groups.contains(sets[nibble]));
        let at = groups.index_of(sets[nibble]);
        bits::lemma_byte_masks(0, at as u8);
        assert(entry == 1u8 << (at as u8));
        assert(bits::bit((1u8 << (at as u8)) as u64, g) == (g == at as u8));
    }
}

// ---------------------------------------------------------------------------------------------
// Kinds.

/// How the members of a set, listed in any order, decide the kind: up to three are named in the
/// order in which they are known; a range is told by its ends; and where bytes can be shuffled,
/// up to eight get a group each, and up to sixteen that agree in a nibble a table of nibbles.
pub proof fn law_members_decide_the_kind(
    set: Set<u8>,
    items: Seq<u8>,
    kind: Kind,
    known: Seq<u8>,
    fast_shuffles: bool,
)
    requires
        kind::is_cheapest(kind, set, known, fast_shuffles),
        lists(items, set),
    ensures
        kind@ == items.to_set(),
        kind is Never <==> items.len() == 0,
        kind is OneByte <==> items.len() == 1,
        kind is TwoBytes <==> items.len() == 2,
        kind is ThreeBytes <==> items.len() == 3,
        kind is OneRange <==> items.len() >= 4 && fills_some(set),
        kind is SmallSet <==> 4 <= items.len() <= 8 && !fills_some(set) && fast_shuffles,
        kind is ConstantNibble <==> 9 <= items.len() <= 16 && !fills_some(set) && fast_shuffles
            && agree_in_a_nibble(items),
        kind matches Kind::OneByte(byte) ==> set.contains(byte) && byte == known[0],
        kind matches Kind::TwoBytes(pair) ==> pair@ == known,
        kind matches Kind::ThreeBytes(three) ==> three@ == known,
        kind matches Kind::OneRange(range) ==> fills(set, range.start, range.last),
        kind matches Kind::AnyByte(table) ==> table@ == set,
{
    lemma_lists(items, set);
    lemma_fills(set);
    if items.len() > 0 {
        lemma_agree(items, set);
    }
    if let Kind::OneByte(byte) = kind {
        assert(kind@.contains(byte));
    }
}

/// Group `i` of a small set admits item `i` and no other byte.
pub proof fn law_groups_admit_their_item(
    lo_lookup: NibbleLookup,
    hi_lookup: NibbleLookup,
    items: Seq<u8>,
    i: int,
    byte: u8,
)
    requires
        kind::own_groups(lo_lookup, hi_lookup, items),
        0 <= i < 8,
    ensures
        bits::bit(lo_lookup.0@[(byte % 16) as int] as u64, i) && bits::bit(
            hi_lookup.0@[(byte / 16) as int] as u64,
            i,
        ) <==> i < items.len() && items[i] == byte,
{
    let (lo, hi) = ((byte % 16) as int, (byte / 16) as int);
    assert(bits::bit(lo_lookup.0@[lo] as u64, i) == (i < items.len() && items[i] as int % 16 == lo));
    assert(bits::bit(hi_lookup.0@[hi] as u64, i) == (i < items.len() && items[i] as int / 16 == hi));
}

/// Lookups admit a byte exactly when some group holds both of its nibbles.
pub proof fn law_lookups_admit_by_groups(
    lo_lookup: NibbleLookup,
    hi_lookup: NibbleLookup,
    byte: u8,
)
    ensures
        nibbles::grouped(lo_lookup, hi_lookup).contains(byte) <==> exists|g: int|
            0 <= g < 8 && #[trigger] bits::bit(lo_lookup.0@[(byte % 16) as int] as u64, g)
                && bits::bit(hi_lookup.0@[(byte / 16) as int] as u64, g),
{
    let (a, b) = (lo_lookup.0@[(byte % 16) as int], hi_lookup.0@[(byte / 16) as int]);
    bits::lemma_bit_ops(a as u64, b as u64);
    bits::lemma_zero_bits((a & b) as u64);
    bits::lemma_byte_masks(a, 0);
    bits::lemma_byte_masks(a & b, 0);
    assert((a & b) as u64 == a as u64 & b as u64);
    if a & b != 0 {
        let g = choose|g: int| #[trigger] bits::bit((a & b) as u64, g);
        assert(bits::bit(a as u64, g) && bits::bit(b as u64, g));
    }
    if exists|g: int| 0 <= g < 8 && #[trigger] bits::bit(a as u64, g) && bits::bit(b as u64, g) {
        let g = choose|g: int|
            0 <= g < 8 && #[trigger] bits::bit(a as u64, g) && bits::bit(b as u64, g);
        assert(bits::bit((a & b) as u64, g));
    }
}

/// A searcher for a kind accepts the bytes of the kind with the kernel that is named after it, on
/// the engine that it is built for. There are two exceptions, which run on words: nothing to search
/// for, and looking bytes up in a table where they cannot be shuffled.
pub proof fn law_kinds_name_their_kernel(plan: SearchPlan, kind: Kind, engine: Engine)
    requires
        memchr::plans_kind(plan, kind, engine),
    ensures
        plan@ == kind@,
        plan.spec_kernel_kind() is Never <==> kind is Never,
        plan.spec_kernel_kind() is OneByte <==> kind is OneByte,
        plan.spec_kernel_kind() is TwoBytes <==> kind is TwoBytes,
        plan.spec_kernel_kind() is ThreeBytes <==> kind is ThreeBytes,
        plan.spec_kernel_kind() is OneRange <==> kind is OneRange,
        plan.spec_kernel_kind() is SmallSet <==> kind is SmallSet,
        plan.spec_kernel_kind() is FixedNibble <==> kind is ConstantNibble,
        plan.spec_kernel_kind() is BitsetLookup <==> kind is AnyByte,
        plan.spec_engine() == if kind is Never || kind is AnyByte && !shuffles_bytes(engine) {
            Engine::Swar
        } else {
            engine
        },
{
}

/// The known order of collected bytes lists each of them once: as they were added while they are
/// few enough to list, and ascending otherwise.
pub proof fn law_known_order_lists_the_members(collected: Bytes)
    requires
        collected.form().valid(),
    ensures
        lists(bytes::known_order(collected), collected@),
        collected@.len() <= 24 <==> collected.form() is List,
        collected.form() matches Form::List(list) ==> bytes::known_order(collected) == list,
        !(collected.form() is List) ==> forall|i: int, j: int|
            0 <= i < j < bytes::known_order(collected).len() ==> #[trigger] bytes::known_order(
                collected,
            )[i] < #[trigger] bytes::known_order(collected)[j],
{
    let order = bytes::known_order(collected);
    match collected.form() {
        Form::List(list) => {
            list.unique_seq_to_set();
        },
        Form::Range(range) => {
            bitset::lemma_range_len(range, range@);
        },
        Form::Table(_) => {},
    }
    if !(collected.form() is List) {
        bitset::lemma_members_exact(collected@);
        bitset::lemma_members_set(collected@);
        assert forall|byte: u8| #[trigger] collected@.contains(byte) <==> order.contains(byte) by {
            assert(order.to_set().contains(byte) == collected@.contains(byte));
        }
    }
}

/// A searcher for collected bytes accepts these bytes. Its kernel is decided by them as that of any
/// searcher is, but that where bytes can be shuffled up to eight of them get a group each, that
/// more are grouped never, and that all bytes but one count as any others.
pub proof fn law_collected_bytes_decide_the_kernel(
    finder: MemchrN,
    collected: Bytes,
    items: Seq<u8>,
    engine: Engine,
)
    requires
        bytes::finds_bytes(finder, collected, engine),
        lists(items, collected@),
    ensures
        finder@ == items.to_set(),
        finder.spec_plan().spec_kernel_kind() is Never <==> items.len() == 0,
        finder.spec_plan().spec_kernel_kind() is OneByte <==> items.len() == 1,
        finder.spec_plan().spec_kernel_kind() is TwoBytes <==> items.len() == 2,
        finder.spec_plan().spec_kernel_kind() is ThreeBytes <==> items.len() == 3,
        finder.spec_plan().spec_kernel_kind() is OneRange <==> items.len() >= 4 && fills_some(
            collected@,
        ),
        finder.spec_plan().spec_kernel_kind() is SmallSet <==> 4 <= items.len() <= 8 && !fills_some(
            collected@,
        ) && shuffles_bytes(engine),
        finder.spec_plan().spec_kernel_kind() is FixedNibble <==> 9 <= items.len() <= 16
            && !fills_some(collected@) && shuffles_bytes(engine) && agree_in_a_nibble(items),
        !(finder.spec_plan().spec_kernel_kind() is NotByte),
        finder.spec_plan().spec_engine() == if items.len() == 0
            || finder.spec_plan().spec_kernel_kind() is BitsetLookup && !shuffles_bytes(engine) {
            Engine::Swar
        } else {
            engine
        },
{
    let fast_shuffles = engine.shuffling() is Vector;
    let kind = choose|kind: Kind| #[trigger]
        kind::is_cheapest(kind, collected@, bytes::known_order(collected), fast_shuffles)
            && memchr::plans_kind(finder.spec_plan(), kind, engine);
    lemma_lists(items, collected@);
    law_members_decide_the_kind(
        collected@,
        items,
        kind,
        bytes::known_order(collected),
        fast_shuffles,
    );
    law_kinds_name_their_kernel(finder.spec_plan(), kind, engine);
}

// ---------------------------------------------------------------------------------------------
// The forms of collected bytes.

/// What has once been put into a table stays there. Otherwise the bytes themselves decide, after
/// each that is added, how they are held: up to twenty-four are listed, more are a range if they
/// fill one, and go into a table if they do not.
pub proof fn law_bytes_decide_their_form(form: Form, item: u8)
    requires
        form.valid(),
    ensures
        form is Table ==> form.with_item(item) is Table,
        !(form is Table) ==> {
            let after = form.with_item(item);
            &&& after is List <==> after.members().len() <= 24
            &&& after is Range <==> after.members().len() > 24 && fills_some(after.members())
        },
        form.with_item(item) matches Form::Range(range) ==> fills(
            form.members().insert(item),
            range.start,
            range.last,
        ),
{
    let after = form.with_item(item);
    let set = after.members();
    bytes::lemma_with_item(form, item);
    lemma_fills(set);
    match after {
        Form::List(list) => {
            list.unique_seq_to_set();
        },
        Form::Range(range) => {
            bitset::lemma_range_len(range, range@);
            assert(fills(set, range.start, range.last));
            assert(set == form.members().insert(item));
        },
        Form::Table(_) => {},
    }
    if let Form::Range(range) = form {
        if after is Table && fills_some(set) {
            let (first, last) = choose|first: u8, last: u8|
                first <= last && #[trigger] fills(set, first, last);
            assert(set.contains(item) && set.contains(range.start) && set.contains(range.last));
            if item < range.start {
                assert(set.contains((item + 1) as u8));
            } else {
                assert(set.contains((item - 1) as u8));
            }
        }
    }
}

/// Adding a range to bytes that are held as a range keeps them so exactly when they fill one
/// together; what has once been put into a table stays there.
pub proof fn law_joined_ranges(form: Form, added: ByteRange)
    requires
        form.valid(),
        !(form is List),
    ensures
        form is Table ==> form.with_range(added) is Table,
        form is Range ==> (form.with_range(added) is Range <==> fills_some(
            form.members().union(added@),
        )),
        !(form.with_range(added) is List),
        form.with_range(added) matches Form::Range(range) ==> fills(
            form.members().union(added@),
            range.start,
            range.last,
        ),
{
    let after = form.with_range(added);
    let set = form.members().union(added@);
    bytes::lemma_with_range(form, added);
    if let Form::Range(joined) = after {
        assert(fills(set, joined.start, joined.last)) by {
            assert(set == joined@);
        }
    }
    if let Form::Range(range) = form {
        if after is Table && fills_some(set) {
            let (first, last) = choose|first: u8, last: u8|
                first <= last && #[trigger] fills(set, first, last);
            assert(set.contains(range.start) && set.contains(range.last));
            assert(added@.contains(added.start) && added@.contains(added.last));
            assert(set.contains(added.start) && set.contains(added.last));
            if added.start > range.last {
                assert(set.contains((range.last + 1) as u8));
            } else {
                assert(set.contains((added.last + 1) as u8));
            }
        }
    }
}

/// A list grows at its end by each byte that is new to it, and only by such.
pub proof fn law_lists_grow_at_the_end(list: Seq<u8>, item: u8)
    ensures
        list.contains(item) ==> Form::List(list).with_item(item) == Form::List(list),
        !list.contains(item) && list.len() < 24 ==> Form::List(list).with_item(item) == Form::List(
            list.push(item),
        ),
        !list.contains(item) && list.len() >= 24 ==> !(Form::List(list).with_item(item) is List),
{
}

/// Adding many bytes is adding them one after the other, in their order.
pub proof fn law_many_are_added_in_order(form: Form, first: Seq<u8>, item: u8, second: Seq<u8>)
    ensures
        form.with_items(Seq::empty()) == form,
        form.with_items(first.push(item)) == form.with_items(first).with_item(item),
        form.with_items(first + second) == form.with_items(first).with_items(second),
    decreases second.len(),
{
    assert(first.push(item).drop_last() =~= first);
    if second.len() == 0 {
        assert(first + second =~= first);
    } else {
        law_many_are_added_in_order(form, first, item, second.drop_last());
        assert((first + second).drop_last() =~= first + second.drop_last());
    }
}

/// The bytes of a range are listed from its start upwards, each once, through its last byte.
pub proof fn law_ranges_are_listed_upwards(range: ByteRange)
    ensures
        lists(bytes::range_items(range), range@),
        forall|i: int|
            0 <= i < bytes::range_items(range).len() ==> #[trigger] bytes::range_items(range)[i]
                == range.start + i,
{
    let items = bytes::range_items(range);
    bytes::lemma_range_items(range);
    assert forall|byte: u8| #[trigger] range@.contains(byte) <==> items.contains(byte) by {
        assert(items.to_set().contains(byte) == range@.contains(byte));
    }
}

// ---------------------------------------------------------------------------------------------
// Text.

/// The text of a set lists the literals of its members in ascending order, with a comma and a
/// space between them: a member behind all others is written behind all others.
pub proof fn law_text_lists_members_upwards(set: Set<u8>, byte: u8)
    requires
        forall|member: u8| #[trigger] set.contains(member) ==> member < byte,
    ensures
        text::set_text(Set::empty()) == seq!['{', '}'],
        text::set_text(set.insert(byte)) == if set.len() == 0 {
            seq!['{'] + text::literal(byte) + seq!['}']
        } else {
            text::set_text(set).drop_last() + seq![',', ' '] + text::literal(byte) + seq!['}']
        },
{
    bitset::lemma_set_len(set);
    lemma_literals_end(Set::empty(), 0, 256);
    assert(text::set_text(Set::empty()) =~= seq!['{', '}']);
    lemma_literals_end(set, byte as int, 256);
    lemma_literals_end(set.insert(byte), byte + 1, 256);
    lemma_literals_agree(set, set.insert(byte), byte as int);
    lemma_literals_empty(set, byte as int);
    let before = text::literals(set, byte as int);
    if set.len() == 0 {
        assert(set =~= Set::empty());
        assert(text::set_text(set.insert(byte)) =~= seq!['{'] + text::literal(byte) + seq!['}']);
    } else {
        assert(before.len() > 0) by {
            let member = set.choose();
            assert(set.contains(member));
        }
        assert(text::set_text(set).drop_last() =~= seq!['{'] + before);
        assert(text::set_text(set.insert(byte)) =~= text::set_text(set).drop_last() + seq![',', ' ']
            + text::literal(byte) + seq!['}']);
    }
}

/// Behind the last member there is nothing more to write.
proof fn lemma_literals_end(set: Set<u8>, from: int, bound: int)
    requires
        0 <= from <= bound <= 256,
        forall|member: u8| #[trigger] set.contains(member) ==> member < from,
    ensures
        text::literals(set, bound) == text::literals(set, from),
    decreases bound - from,
{
    if from < bound {
        lemma_literals_end(set, from, bound - 1);
        assert(!set.contains((bound - 1) as u8));
    }
}

/// Sets with the same members below a bound have the same text below it.
proof fn lemma_literals_agree(a: Set<u8>, b: Set<u8>, bound: int)
    requires
        bound <= 256,
        forall|byte: u8| byte < bound ==> #[trigger] a.contains(byte) == b.contains(byte),
    ensures
        text::literals(a, bound) == text::literals(b, bound),
    decreases bound,
{
    if bound > 0 {
        lemma_literals_agree(a, b, bound - 1);
        assert(a.contains((bound - 1) as u8) == b.contains((bound - 1) as u8));
    }
}

/// The text below a bound is empty exactly when there is no member below it.
proof fn lemma_literals_empty(set: Set<u8>, bound: int)
    requires
        bound <= 256,
    ensures
        text::literals(set, bound).len() == 0 <==> forall|byte: u8|
            byte < bound ==> !#[trigger] set.contains(byte),
    decreases bound,
{
    if bound > 0 {
        lemma_literals_empty(set, bound - 1);
        assert(text::literal((bound - 1) as u8).len() > 0);
        if text::literals(set, bound).len() == 0 {
            assert forall|byte: u8| byte < bound implies !#[trigger] set.contains(byte) by {
                if byte == bound - 1 {
                    assert(!set.contains((bound - 1) as u8));
                }
            }
        } else if !set.contains((bound - 1) as u8) {
            assert(text::literals(set, bound - 1).len() > 0);
        }
    }
}

} // verus!
