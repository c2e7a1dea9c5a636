//! Searchers for sets of bytes.

use crate::bits;
use crate::bitset;
use crate::bytewise;
use crate::bitset::{inclusive_range, ByteRange, ByteSet};
use crate::engine;
use crate::engine::{Backend, Engine};
use crate::iter::Iter;
use crate::kind::{Kind, MEMBERS_MAX};
use crate::nibbles;
use crate::nibbles::{extract_fixed_nibble_table, extract_nibble_lookups, FixedNibble};
use crate::plan::{KernelKind, SearchPlan, SwarKernel, VectorKernel};
use crate::search;
use crate::search::BitsetLookup;
use crate::swar;
use crate::text;
use crate::text::describe_searcher;
use crate::vector;
use core::ops::Bound;
use vstd::array::array_as_slice;
use vstd::pervasive::unreached;
use vstd::prelude::*;
use vstd::slice::*;
use vstd::std_specs::iter::*;

verus! {

/// Searches for bytes belonging to a fixed set.
///
/// The view of a searcher is the set of the bytes that it searches for.
pub struct MemchrN {
    search: SearchPlan,
}

impl View for MemchrN {
    type V = Set<u8>;

    closed spec fn view(&self) -> Set<u8> {
        self.search@
    }
}

impl MemchrN {
    /// The plan that the searcher follows.
    pub closed spec fn spec_plan(self) -> SearchPlan {
        self.search
    }

    /// The plan that the searcher follows.
    pub fn plan(&self) -> (plan: &SearchPlan)
        ensures
            *plan == self.spec_plan(),
            plan@ == self@,
    {
        &self.search
    }

    /// Returns the offset of the first matching byte in `haystack`.
    ///
    /// Prefer [`iter`](Self::iter) rather than calling this function repeatedly
    /// to iterate over the instances of matching bytes.
    pub fn find(&self, haystack: &[u8]) -> (found: Option<usize>)
        ensures
            search::is_first_match(self@, haystack@, found),
    {
        self.search.first_match(haystack)
    }

    /// Returns an [`Iter`] over the offsets of every matching byte in `haystack`.
    ///
    /// If only the first match is needed, prefer [`find`](Self::find).
    pub fn iter<'a>(&'a self, haystack: &'a [u8]) -> (iter: Iter<'a>)
        ensures
            iter.set() == self@,
            iter.haystack() == haystack@,
            iter.pending() == search::match_offsets(self@, haystack@),
            iter.held() == 0,
            iter.unscanned() == haystack@.len(),
    {
        Iter::new(self, haystack)
    }
}

/// The kernel that a searcher for `set` gets on `engine`.
pub open spec fn kernel_for(set: Set<u8>, engine: Engine) -> KernelKind {
    let shuffle = engine.shuffling() is Vector;
    if set.len() == 0 {
        KernelKind::Never
    } else if set.len() == 1 {
        KernelKind::OneByte
    } else if set.len() == 2 {
        KernelKind::TwoBytes
    } else if set.len() == 3 {
        KernelKind::ThreeBytes
    } else if set.len() > MEMBERS_MAX && bitset::is_all_but_one(set) {
        KernelKind::NotByte
    } else if bitset::is_range(set) {
        KernelKind::OneRange
    } else if shuffle && set.len() <= MEMBERS_MAX && nibbles::shares_a_nibble(set) {
        KernelKind::FixedNibble
    } else if shuffle && nibbles::fits_nibble_groups(set) {
        KernelKind::SmallSet
    } else {
        KernelKind::BitsetLookup
    }
}

/// The engine that runs the kernel of a searcher for `set` on `engine`.
pub open spec fn engine_for(set: Set<u8>, engine: Engine) -> Engine {
    match kernel_for(set, engine) {
        KernelKind::Never => Engine::Swar,
        KernelKind::BitsetLookup => engine.shuffling(),
        _ => engine,
    }
}

/// Whether `plan` is the plan of a searcher for `set` on `engine`.
pub open spec fn plans(plan: SearchPlan, set: Set<u8>, engine: Engine) -> bool {
    &&& plan@ == set
    &&& plan.spec_kernel_kind() == kernel_for(set, engine)
    &&& plan.spec_engine() == engine_for(set, engine)
}

impl MemchrN {
    /// Builds a searcher for the members of `set` that runs on `engine`.
    ///
    /// The cheapest kernel that fits the set is chosen: comparisons with up to three bytes, the
    /// test for one excluded byte or for a range, a table of bytes that share a nibble, groups of
    /// nibbles, and a membership table for anything else.
    pub fn from_byte_set_with_engine(set: ByteSet, engine: Engine) -> (finder: MemchrN)
        ensures
            plans(finder.spec_plan(), set@, engine),
            finder@ == set@,
    {
        let mut members: [u8; MEMBERS_MAX] = [0; MEMBERS_MAX];
        let ghost listed = bitset::members_of(set@);
        proof {
            bitset::lemma_set_len(set@);
            bitset::lemma_members_exact(set@);
            bitset::lemma_members_set(set@);
        }
        let count: usize = match set.write_members(&mut members) {
            Some(count) => count as usize,
            None => {
                if let Some(byte) = set.excluded_byte() {
                    assert(bitset::is_all_but_one(set@));
                    assert(set![byte].complement() =~= Set::<u8>::full().remove(byte));
                    return MemchrN::of_not_byte(engine, byte);
                }
                // Ranges remain cheap even when too large for a named-member kernel.
                if let Some(range) = set.as_contiguous_range() {
                    assert(bitset::is_range(set@));
                    return MemchrN::of_range(engine, range);
                }
                assert(!bitset::is_range(set@));
                return match MemchrN::of_small_set(engine, &set) {
                    Some(finder) => finder,
                    None => MemchrN::of_bitset_lookup(engine, set),
                };
            },
        };
        if count == 0 {
            assert(set@ =~= Set::<u8>::empty());
            return MemchrN::of_never();
        }
        if count == 1 {
            let needles: [u8; 1] = [members[0]];
            assert(needles@ =~= listed);
            return MemchrN::of_needles(engine, needles);
        }
        if count == 2 {
            let needles: [u8; 2] = [members[0], members[1]];
            assert(needles@ =~= listed);
            return MemchrN::of_needles(engine, needles);
        }
        if count == 3 {
            let needles: [u8; 3] = [members[0], members[1], members[2]];
            assert(needles@ =~= listed);
            return MemchrN::of_needles(engine, needles);
        }
        let (start, last) = (members[0], members[count - 1]);
        proof {
            bitset::lemma_contiguous(set@);
        }
        if (last - start) as usize + 1 == count {
            return MemchrN::of_range(engine, ByteRange { start, last });
        }
        let named = slice_subrange(array_as_slice(&members), 0, count);
        assert(named@ =~= listed);
        match MemchrN::of_fixed_nibble_set(engine, named) {
            Some(finder) => finder,
            None => match MemchrN::of_small_set(engine, &set) {
                Some(finder) => finder,
                None => MemchrN::of_bitset_lookup(engine, set),
            },
        }
    }

    /// A searcher for up to three needles.
    fn of_needles<const N: usize>(engine: Engine, needles: [u8; N]) -> (finder: MemchrN) where
        swar::kernels::AnyOf<N>: SwarKernel,
        vector::kernels::AnyOf<N>: VectorKernel,

        ensures
            finder@ == needles@.to_set(),
            finder.spec_plan()@ == finder@,
            finder.spec_plan().spec_engine() == engine,
            finder.spec_plan().spec_kernel_kind() == match engine {
                Engine::Vector(_) => <vector::kernels::AnyOf<N> as VectorKernel>::kernel_kind(),
                Engine::Swar => <swar::kernels::AnyOf<N> as SwarKernel>::kernel_kind(),
            },
    {
        let search = match engine {
            Engine::Vector(level) => SearchPlan::vector(level, vector::kernels::AnyOf::new(needles)),
            Engine::Swar => SearchPlan::swar(swar::kernels::AnyOf::new(needles)),
        };
        MemchrN { search }
    }

    /// A searcher for every byte but one.
    fn of_not_byte(engine: Engine, byte: u8) -> (finder: MemchrN)
        ensures
            finder@ == set![byte].complement(),
            finder.spec_plan()@ == finder@,
            finder.spec_plan().spec_engine() == engine,
            finder.spec_plan().spec_kernel_kind() == KernelKind::NotByte,
    {
        let search = match engine {
            Engine::Vector(level) => SearchPlan::vector(level, vector::kernels::NotByte::new(byte)),
            Engine::Swar => SearchPlan::swar(swar::kernels::NotByte::new(byte)),
        };
        MemchrN { search }
    }

    /// A searcher for the bytes of a range.
    fn of_range(engine: Engine, range: ByteRange) -> (finder: MemchrN)
        requires
            range.start <= range.last,
        ensures
            finder@ == range@,
            finder.spec_plan()@ == finder@,
            finder.spec_plan().spec_engine() == engine,
            finder.spec_plan().spec_kernel_kind() == KernelKind::OneRange,
    {
        let search = match engine {
            Engine::Vector(level) => SearchPlan::vector(
                level,
                vector::kernels::OneRange::new(range),
            ),
            Engine::Swar => SearchPlan::swar(swar::kernels::OneRange::new(range)),
        };
        MemchrN { search }
    }

    /// A searcher that groups nibbles, where the engine shuffles bytes and the set fits the groups.
    fn of_small_set(engine: Engine, byte_set: &ByteSet) -> (finder: Option<MemchrN>)
        ensures
            finder is Some <==> engine.shuffling() is Vector && nibbles::fits_nibble_groups(byte_set@),
            finder matches Some(finder) ==> {
                &&& finder@ == byte_set@
                &&& finder.spec_plan()@ == finder@
                &&& finder.spec_plan().spec_engine() == engine
                &&& finder.spec_plan().spec_kernel_kind() == KernelKind::SmallSet
            },
    {
        let level = match engine {
            Engine::Vector(level) => level,
            Engine::Swar => return None,
        };
        if !vector::has_byte_shuffle(level) {
            return None;
        }
        match extract_nibble_lookups(byte_set) {
            Some((lo_lookup, hi_lookup)) => Some(
                MemchrN {
                    search: SearchPlan::vector(
                        level,
                        vector::kernels::SmallSet::new(lo_lookup, hi_lookup),
                    ),
                },
            ),
            None => None,
        }
    }

    /// A searcher for bytes that share a nibble, where the engine shuffles bytes and they do.
    fn of_fixed_nibble_set(engine: Engine, possible_set: &[u8]) -> (finder: Option<MemchrN>)
        ensures
            finder is Some <==> engine.shuffling() is Vector && possible_set@.len() > 0 && (
            nibbles::shares_nibble(FixedNibble::Low, possible_set@) || nibbles::shares_nibble(
                FixedNibble::High,
                possible_set@,
            )),
            finder matches Some(finder) ==> {
                &&& finder@ == possible_set@.to_set()
                &&& finder.spec_plan()@ == finder@
                &&& finder.spec_plan().spec_engine() == engine
                &&& finder.spec_plan().spec_kernel_kind() == KernelKind::FixedNibble
            },
    {
        let level = match engine {
            Engine::Vector(level) => level,
            Engine::Swar => return None,
        };
        if !vector::has_byte_shuffle(level) {
            return None;
        }
        match extract_fixed_nibble_table(possible_set) {
            Some(table) => Some(
                MemchrN {
                    search: SearchPlan::vector(level, vector::kernels::FixedNibbleSet::new(table)),
                },
            ),
            None => None,
        }
    }

    /// A searcher that looks bytes up in a table.
    fn of_bitset_lookup(engine: Engine, byte_set: ByteSet) -> (finder: MemchrN)
        ensures
            finder@ == byte_set@,
            finder.spec_plan()@ == finder@,
            finder.spec_plan().spec_engine() == engine.shuffling(),
            finder.spec_plan().spec_kernel_kind() == KernelKind::BitsetLookup,
    {
        let kernel = BitsetLookup::new(byte_set);
        let search = match engine.with_byte_shuffle() {
            Engine::Vector(level) => SearchPlan::vector(level, kernel),
            Engine::Swar => SearchPlan::swar(kernel),
        };
        MemchrN { search }
    }

    /// A searcher that finds nothing.
    fn of_never() -> (finder: MemchrN)
        ensures
            finder@ == Set::<u8>::empty(),
            finder.spec_plan()@ == finder@,
            finder.spec_plan().spec_engine() == Engine::Swar,
            finder.spec_plan().spec_kernel_kind() == KernelKind::Never,
    {
        MemchrN { search: SearchPlan::never() }
    }
}

/// Whether `finder` is what building a searcher for `set` with `backend` gives.
///
/// The backend leaves only the engine open, and only where it depends on the machine.
pub open spec fn built(finder: MemchrN, set: Set<u8>, backend: Backend) -> bool {
    &&& finder@ == set
    &&& exists|engine: Engine| #[trigger]
        engine::serves(backend, engine) && plans(finder.spec_plan(), set, engine)
}

impl MemchrN {
    /// Builds a searcher for the distinct values in `bytes` using the best supported kernels.
    pub fn new(bytes: &[u8]) -> (finder: MemchrN)
        ensures
            built(finder, bytes@.to_set(), Backend::Auto),
    {
        MemchrN::new_with_backend(bytes, Backend::Auto)
    }

    /// Builds a searcher for the distinct values in `bytes` using `backend`.
    pub fn new_with_backend(bytes: &[u8], backend: Backend) -> (finder: MemchrN)
        ensures
            built(finder, bytes@.to_set(), backend),
    {
        MemchrN::from_byte_set_with_backend(ByteSet::from_bytes(bytes), backend)
    }

    /// Builds a searcher for the members of `set` using the best supported kernels.
    ///
    /// A [`ByteSet`] describes any set of byte values, so this is the most general way to build a
    /// searcher. An empty set never matches.
    pub fn from_byte_set(set: ByteSet) -> (finder: MemchrN)
        ensures
            built(finder, set@, Backend::Auto),
    {
        MemchrN::from_byte_set_with_backend(set, Backend::Auto)
    }

    /// Builds a searcher for the members of `set` using `backend`.
    ///
    /// An empty set never matches.
    pub fn from_byte_set_with_backend(set: ByteSet, backend: Backend) -> (finder: MemchrN)
        ensures
            built(finder, set@, backend),
    {
        let engine = backend.engine();
        MemchrN::from_byte_set_with_engine(set, engine)
    }

    /// Builds a searcher for every byte except `byte` using the best supported kernels.
    pub fn from_not_byte(byte: u8) -> (finder: MemchrN)
        ensures
            built(finder, set![byte].complement(), Backend::Auto),
    {
        MemchrN::from_not_byte_with_backend(byte, Backend::Auto)
    }

    /// Builds a searcher for every byte except `byte` using `backend`.
    pub fn from_not_byte_with_backend(byte: u8, backend: Backend) -> (finder: MemchrN)
        ensures
            built(finder, set![byte].complement(), backend),
            finder.spec_plan().spec_kernel_kind() == KernelKind::NotByte,
    {
        let engine = backend.engine();
        proof {
            lemma_all_but_one(byte);
        }
        MemchrN::of_not_byte(engine, byte)
    }

    /// Builds a searcher for the bytes within `bounds` using the best supported kernels.
    ///
    /// An empty range matches nothing.
    pub fn from_range(bounds: (Bound<u8>, Bound<u8>)) -> (finder: MemchrN)
        ensures
            built(finder, bitset::bounded_set(bounds), Backend::Auto),
    {
        MemchrN::from_range_with_backend(bounds, Backend::Auto)
    }

    /// Builds a searcher for the bytes within `bounds` using `backend`.
    ///
    /// An empty range matches nothing.
    pub fn from_range_with_backend(bounds: (Bound<u8>, Bound<u8>), backend: Backend) -> (finder:
        MemchrN)
        ensures
            built(finder, bitset::bounded_set(bounds), backend),
    {
        let mut set = ByteSet::new();
        if let Some(range) = inclusive_range(bounds) {
            set.add_byte_range(range);
        }
        assert(set@ =~= bitset::bounded_set(bounds));
        MemchrN::from_byte_set_with_backend(set, backend)
    }

    /// Builds a searcher for the distinct bytes that `iter` yields.
    pub fn from_iter<I: Iterator<Item = u8>>(iter: I) -> (finder: MemchrN)
        requires
            iter.obeys_prophetic_iter_laws(),
            iter.decrease() is Some,
        ensures
            built(finder, iter.remaining().to_set(), Backend::Auto),
    {
        MemchrN::from_byte_set(ByteSet::from_iter(iter))
    }

    /// Writes which engine and which kernel the searcher uses.
    pub fn debug_string(&self) -> (text: String)
        ensures
            text@ == text::searcher_text(
                self.spec_plan().spec_engine(),
                self.spec_plan().spec_kernel_kind(),
            ),
    {
        describe_searcher(self.search.engine(), self.search.kernel_kind())
    }
}

/// Whether `plan` is the plan of a searcher for a set of that `kind` on `engine`.
pub open spec fn plans_kind(plan: SearchPlan, kind: Kind, engine: Engine) -> bool {
    &&& plan@ == kind@
    &&& match kind {
        Kind::AnyByte(_) => plan.spec_kernel_kind() == KernelKind::BitsetLookup
            && plan.spec_engine() == engine.shuffling(),
        Kind::SmallSet { .. } => plan.spec_kernel_kind() == KernelKind::SmallSet
            && plan.spec_engine() == engine,
        Kind::ConstantNibble(_) => plan.spec_kernel_kind() == KernelKind::FixedNibble
            && plan.spec_engine() == engine,
        Kind::OneByte(_) => plan.spec_kernel_kind() == KernelKind::OneByte && plan.spec_engine()
            == engine,
        Kind::TwoBytes(_) => plan.spec_kernel_kind() == KernelKind::TwoBytes && plan.spec_engine()
            == engine,
        Kind::ThreeBytes(_) => plan.spec_kernel_kind() == KernelKind::ThreeBytes
            && plan.spec_engine() == engine,
        Kind::OneRange(_) => plan.spec_kernel_kind() == KernelKind::OneRange && plan.spec_engine()
            == engine,
        Kind::Never => plan.spec_kernel_kind() == KernelKind::Never && plan.spec_engine()
            == Engine::Swar,
    }
}

impl MemchrN {
    /// Builds a searcher for a set of that `kind` that runs on `engine`.
    ///
    /// Where bytes cannot be shuffled, a membership table is probed byte by byte.
    pub fn from_kind(engine: Engine, kind: Kind) -> (finder: MemchrN)
        requires
            kind matches Kind::OneRange(range) ==> range.start <= range.last,
            kind is SmallSet || kind is ConstantNibble ==> engine is Vector,
        ensures
            finder@ == kind@,
            plans_kind(finder.spec_plan(), kind, engine),
    {
        match kind {
            Kind::Never => MemchrN::of_never(),
            Kind::OneByte(item) => {
                let needles: [u8; 1] = [item];
                assert forall|byte: u8| needles@.to_set().contains(byte) == (byte == item) by {
                    assert(needles@.contains(needles@[0]));
                }
                assert(needles@.to_set() =~= set![item]);
                MemchrN::of_needles(engine, needles)
            },
            Kind::TwoBytes(items) => MemchrN::of_needles(engine, items),
            Kind::ThreeBytes(items) => MemchrN::of_needles(engine, items),
            Kind::OneRange(range) => MemchrN::of_range(engine, range),
            Kind::SmallSet { lo_lookup, hi_lookup } => match engine {
                Engine::Vector(level) => MemchrN {
                    search: SearchPlan::vector(
                        level,
                        vector::kernels::SmallSet::new(lo_lookup, hi_lookup),
                    ),
                },
                Engine::Swar => unreached(),
            },
            Kind::ConstantNibble(table) => match engine {
                Engine::Vector(level) => MemchrN {
                    search: SearchPlan::vector(level, vector::kernels::FixedNibbleSet::new(table)),
                },
                Engine::Swar => unreached(),
            },
            Kind::AnyByte(set) => match engine.with_byte_shuffle() {
                Engine::Vector(level) => MemchrN {
                    search: SearchPlan::vector(level, BitsetLookup::new(set)),
                },
                Engine::Swar => MemchrN {
                    search: SearchPlan::bytewise(bytewise::kernels::AnyByte::new(set)),
                },
            },
        }
    }
}

impl Clone for MemchrN {
    /// A searcher for the same bytes that follows the same plan.
    fn clone(&self) -> (copy: MemchrN)
        ensures
            copy == *self,
    {
        MemchrN { search: self.search }
    }
}

/// The set of every byte but one has too many members to name, and gets the kernel for it.
proof fn lemma_all_but_one(byte: u8)
    ensures
        forall|engine: Engine| #[trigger]
            kernel_for(set![byte].complement(), engine) == KernelKind::NotByte,
{
    let set = set![byte].complement();
    assert(set =~= Set::<u8>::full().remove(byte));
    assert(bitset::is_all_but_one(set));
    let p = bitset::membership(set);
    bitset::lemma_set_len(set);
    bits::lemma_positions_split(p, 0, byte as int, 256);
    bits::lemma_count_full(p, 0, byte as int);
    bits::lemma_count_full(p, byte + 1, 256);
    bits::lemma_positions_split(p, byte as int, byte + 1, 256);
}

} // verus!
