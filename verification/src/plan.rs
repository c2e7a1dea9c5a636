//! Kernels paired with the scans that run them.

use crate::bits;
use crate::bytewise;
use crate::engine::Engine;
use crate::search;
use crate::search::{BitsetLookup, IterState, MatchedBitset};
use crate::swar;
use crate::vector;
use fearless_simd::Level;
use vstd::prelude::*;

verus! {

/// Names a kernel in diagnostics.
#[derive(Copy, Clone, Debug)]
pub enum KernelKind {
    /// A membership table.
    BitsetLookup,
    /// Groups of nibbles.
    SmallSet,
    /// A table of bytes that share a nibble.
    FixedNibble,
    /// One needle.
    OneByte,
    /// Every byte but one.
    NotByte,
    /// Two needles.
    TwoBytes,
    /// Three needles.
    ThreeBytes,
    /// A range.
    OneRange,
    /// Nothing.
    Never,
}

/// A kernel, together with the instruction set that runs it where it is a vector kernel.
#[derive(Copy, Clone)]
pub enum KernelStorage {
    SwarAny1(swar::kernels::AnyOf<1>),
    SwarAny2(swar::kernels::AnyOf<2>),
    SwarAny3(swar::kernels::AnyOf<3>),
    SwarRange(swar::kernels::OneRange),
    SwarNotByte(swar::kernels::NotByte),
    SwarBitset(BitsetLookup),
    Bytewise(bytewise::kernels::AnyByte),
    VectorAny1(Level, vector::kernels::AnyOf<1>),
    VectorAny2(Level, vector::kernels::AnyOf<2>),
    VectorAny3(Level, vector::kernels::AnyOf<3>),
    VectorRange(Level, vector::kernels::OneRange),
    VectorSmallSet(Level, vector::kernels::SmallSet),
    VectorFixedNibble(Level, vector::kernels::FixedNibbleSet),
    VectorNotByte(Level, vector::kernels::NotByte),
    VectorBitset(Level, BitsetLookup),
    Never,
}

impl View for KernelStorage {
    type V = Set<u8>;

    /// The set of the bytes that the kernel accepts.
    open spec fn view(&self) -> Set<u8> {
        match self {
            KernelStorage::SwarAny1(kernel) => kernel@,
            KernelStorage::SwarAny2(kernel) => kernel@,
            KernelStorage::SwarAny3(kernel) => kernel@,
            KernelStorage::SwarRange(kernel) => kernel@,
            KernelStorage::SwarNotByte(kernel) => kernel@,
            KernelStorage::SwarBitset(kernel) => kernel@,
            KernelStorage::Bytewise(kernel) => kernel@,
            KernelStorage::VectorAny1(_, kernel) => kernel@,
            KernelStorage::VectorAny2(_, kernel) => kernel@,
            KernelStorage::VectorAny3(_, kernel) => kernel@,
            KernelStorage::VectorRange(_, kernel) => kernel@,
            KernelStorage::VectorSmallSet(_, kernel) => kernel@,
            KernelStorage::VectorFixedNibble(_, kernel) => kernel@,
            KernelStorage::VectorNotByte(_, kernel) => kernel@,
            KernelStorage::VectorBitset(_, kernel) => kernel@,
            KernelStorage::Never => Set::empty(),
        }
    }
}

impl KernelStorage {
    /// What the kernel is called.
    pub open spec fn spec_kind(self) -> KernelKind {
        match self {
            KernelStorage::SwarAny1(_) => KernelKind::OneByte,
            KernelStorage::SwarAny2(_) => KernelKind::TwoBytes,
            KernelStorage::SwarAny3(_) => KernelKind::ThreeBytes,
            KernelStorage::SwarRange(_) => KernelKind::OneRange,
            KernelStorage::SwarNotByte(_) => KernelKind::NotByte,
            KernelStorage::SwarBitset(_) => KernelKind::BitsetLookup,
            KernelStorage::Bytewise(_) => KernelKind::BitsetLookup,
            KernelStorage::VectorAny1(..) => KernelKind::OneByte,
            KernelStorage::VectorAny2(..) => KernelKind::TwoBytes,
            KernelStorage::VectorAny3(..) => KernelKind::ThreeBytes,
            KernelStorage::VectorRange(..) => KernelKind::OneRange,
            KernelStorage::VectorSmallSet(..) => KernelKind::SmallSet,
            KernelStorage::VectorFixedNibble(..) => KernelKind::FixedNibble,
            KernelStorage::VectorNotByte(..) => KernelKind::NotByte,
            KernelStorage::VectorBitset(..) => KernelKind::BitsetLookup,
            KernelStorage::Never => KernelKind::Never,
        }
    }

    /// What runs the kernel.
    pub open spec fn spec_engine(self) -> Engine {
        match self {
            KernelStorage::VectorAny1(level, _) => Engine::Vector(level),
            KernelStorage::VectorAny2(level, _) => Engine::Vector(level),
            KernelStorage::VectorAny3(level, _) => Engine::Vector(level),
            KernelStorage::VectorRange(level, _) => Engine::Vector(level),
            KernelStorage::VectorSmallSet(level, _) => Engine::Vector(level),
            KernelStorage::VectorFixedNibble(level, _) => Engine::Vector(level),
            KernelStorage::VectorNotByte(level, _) => Engine::Vector(level),
            KernelStorage::VectorBitset(level, _) => Engine::Vector(level),
            _ => Engine::Swar,
        }
    }
}

/// A kernel that can be stored to scan word by word.
pub trait SwarKernel: swar::Kernel {
    /// What the kernel is called.
    spec fn kernel_kind() -> KernelKind;

    /// Stores the kernel.
    fn into_storage(self) -> (storage: KernelStorage)
        ensures
            storage@ == self@,
            storage.spec_kind() == Self::kernel_kind(),
            storage.spec_engine() == Engine::Swar,
    ;
}

/// A kernel that can be stored to scan vector by vector.
pub trait VectorKernel: vector::Kernel {
    /// What the kernel is called.
    spec fn kernel_kind() -> KernelKind;

    /// Stores the kernel to run it at `level`.
    fn into_storage(self, level: Level) -> (storage: KernelStorage)
        ensures
            storage@ == self@,
            storage.spec_kind() == Self::kernel_kind(),
            storage.spec_engine() == Engine::Vector(level),
    ;
}

impl SwarKernel for swar::kernels::AnyOf<1> {
    open spec fn kernel_kind() -> KernelKind {
        KernelKind::OneByte
    }

    fn into_storage(self) -> (storage: KernelStorage) {
        KernelStorage::SwarAny1(self)
    }
}

impl SwarKernel for swar::kernels::AnyOf<2> {
    open spec fn kernel_kind() -> KernelKind {
        KernelKind::TwoBytes
    }

    fn into_storage(self) -> (storage: KernelStorage) {
        KernelStorage::SwarAny2(self)
    }
}

impl SwarKernel for swar::kernels::AnyOf<3> {
    open spec fn kernel_kind() -> KernelKind {
        KernelKind::ThreeBytes
    }

    fn into_storage(self) -> (storage: KernelStorage) {
        KernelStorage::SwarAny3(self)
    }
}

impl SwarKernel for swar::kernels::OneRange {
    open spec fn kernel_kind() -> KernelKind {
        KernelKind::OneRange
    }

    fn into_storage(self) -> (storage: KernelStorage) {
        KernelStorage::SwarRange(self)
    }
}

impl SwarKernel for swar::kernels::NotByte {
    open spec fn kernel_kind() -> KernelKind {
        KernelKind::NotByte
    }

    fn into_storage(self) -> (storage: KernelStorage) {
        KernelStorage::SwarNotByte(self)
    }
}

impl SwarKernel for BitsetLookup {
    open spec fn kernel_kind() -> KernelKind {
        KernelKind::BitsetLookup
    }

    fn into_storage(self) -> (storage: KernelStorage) {
        KernelStorage::SwarBitset(self)
    }
}

impl VectorKernel for vector::kernels::AnyOf<1> {
    open spec fn kernel_kind() -> KernelKind {
        KernelKind::OneByte
    }

    fn into_storage(self, level: Level) -> (storage: KernelStorage) {
        KernelStorage::VectorAny1(level, self)
    }
}

impl VectorKernel for vector::kernels::AnyOf<2> {
    open spec fn kernel_kind() -> KernelKind {
        KernelKind::TwoBytes
    }

    fn into_storage(self, level: Level) -> (storage: KernelStorage) {
        KernelStorage::VectorAny2(level, self)
    }
}

impl VectorKernel for vector::kernels::AnyOf<3> {
    open spec fn kernel_kind() -> KernelKind {
        KernelKind::ThreeBytes
    }

    fn into_storage(self, level: Level) -> (storage: KernelStorage) {
        KernelStorage::VectorAny3(level, self)
    }
}

impl VectorKernel for vector::kernels::OneRange {
    open spec fn kernel_kind() -> KernelKind {
        KernelKind::OneRange
    }

    fn into_storage(self, level: Level) -> (storage: KernelStorage) {
        KernelStorage::VectorRange(level, self)
    }
}

impl VectorKernel for vector::kernels::SmallSet {
    open spec fn kernel_kind() -> KernelKind {
        KernelKind::SmallSet
    }

    fn into_storage(self, level: Level) -> (storage: KernelStorage) {
        KernelStorage::VectorSmallSet(level, self)
    }
}

impl VectorKernel for vector::kernels::FixedNibbleSet {
    open spec fn kernel_kind() -> KernelKind {
        KernelKind::FixedNibble
    }

    fn into_storage(self, level: Level) -> (storage: KernelStorage) {
        KernelStorage::VectorFixedNibble(level, self)
    }
}

impl VectorKernel for vector::kernels::NotByte {
    open spec fn kernel_kind() -> KernelKind {
        KernelKind::NotByte
    }

    fn into_storage(self, level: Level) -> (storage: KernelStorage) {
        KernelStorage::VectorNotByte(level, self)
    }
}

impl VectorKernel for BitsetLookup {
    open spec fn kernel_kind() -> KernelKind {
        KernelKind::BitsetLookup
    }

    fn into_storage(self, level: Level) -> (storage: KernelStorage) {
        KernelStorage::VectorBitset(level, self)
    }
}

/// A kernel paired with the scans and the SIMD level that run it.
///
/// The view of a plan is the set of the bytes that it searches for.
#[derive(Copy, Clone)]
pub struct SearchPlan {
    kernel_storage: KernelStorage,
}

impl View for SearchPlan {
    type V = Set<u8>;

    closed spec fn view(&self) -> Set<u8> {
        self.kernel_storage@
    }
}

impl SearchPlan {
    /// What runs the plan.
    pub closed spec fn spec_engine(self) -> Engine {
        self.kernel_storage.spec_engine()
    }

    /// What the kernel of the plan is called.
    pub closed spec fn spec_kernel_kind(self) -> KernelKind {
        self.kernel_storage.spec_kind()
    }

    /// Plans word-at-a-time scanning with `kernel`.
    pub fn swar<K: SwarKernel>(kernel: K) -> (plan: SearchPlan)
        ensures
            plan@ == kernel@,
            plan.spec_engine() == Engine::Swar,
            plan.spec_kernel_kind() == K::kernel_kind(),
    {
        SearchPlan { kernel_storage: kernel.into_storage() }
    }

    /// Plans byte-at-a-time scanning with a membership table.
    pub fn bytewise(kernel: bytewise::kernels::AnyByte) -> (plan: SearchPlan)
        ensures
            plan@ == kernel@,
            plan.spec_engine() == Engine::Swar,
            plan.spec_kernel_kind() == KernelKind::BitsetLookup,
    {
        SearchPlan { kernel_storage: KernelStorage::Bytewise(kernel) }
    }

    /// Plans vector scanning with `kernel` on the instructions `level` supports.
    pub fn vector<K: VectorKernel>(level: Level, kernel: K) -> (plan: SearchPlan)
        ensures
            plan@ == kernel@,
            plan.spec_engine() == Engine::Vector(level),
            plan.spec_kernel_kind() == K::kernel_kind(),
    {
        SearchPlan { kernel_storage: kernel.into_storage(level) }
    }

    /// Plans a search that never matches.
    pub fn never() -> (plan: SearchPlan)
        ensures
            plan@ == Set::<u8>::empty(),
            plan.spec_engine() == Engine::Swar,
            plan.spec_kernel_kind() == KernelKind::Never,
    {
        SearchPlan { kernel_storage: KernelStorage::Never }
    }

    /// What runs the plan.
    pub fn engine(&self) -> (engine: Engine)
        ensures
            engine == self.spec_engine(),
    {
        match self.kernel_storage {
            KernelStorage::VectorAny1(level, _) => Engine::Vector(level),
            KernelStorage::VectorAny2(level, _) => Engine::Vector(level),
            KernelStorage::VectorAny3(level, _) => Engine::Vector(level),
            KernelStorage::VectorRange(level, _) => Engine::Vector(level),
            KernelStorage::VectorSmallSet(level, _) => Engine::Vector(level),
            KernelStorage::VectorFixedNibble(level, _) => Engine::Vector(level),
            KernelStorage::VectorNotByte(level, _) => Engine::Vector(level),
            KernelStorage::VectorBitset(level, _) => Engine::Vector(level),
            _ => Engine::Swar,
        }
    }

    /// What the kernel of the plan is called.
    pub fn kernel_kind(&self) -> (kind: KernelKind)
        ensures
            kind == self.spec_kernel_kind(),
    {
        match self.kernel_storage {
            KernelStorage::SwarAny1(_) => KernelKind::OneByte,
            KernelStorage::SwarAny2(_) => KernelKind::TwoBytes,
            KernelStorage::SwarAny3(_) => KernelKind::ThreeBytes,
            KernelStorage::SwarRange(_) => KernelKind::OneRange,
            KernelStorage::SwarNotByte(_) => KernelKind::NotByte,
            KernelStorage::SwarBitset(_) => KernelKind::BitsetLookup,
            KernelStorage::Bytewise(_) => KernelKind::BitsetLookup,
            KernelStorage::VectorAny1(_, _) => KernelKind::OneByte,
            KernelStorage::VectorAny2(_, _) => KernelKind::TwoBytes,
            KernelStorage::VectorAny3(_, _) => KernelKind::ThreeBytes,
            KernelStorage::VectorRange(_, _) => KernelKind::OneRange,
            KernelStorage::VectorSmallSet(_, _) => KernelKind::SmallSet,
            KernelStorage::VectorFixedNibble(_, _) => KernelKind::FixedNibble,
            KernelStorage::VectorNotByte(_, _) => KernelKind::NotByte,
            KernelStorage::VectorBitset(_, _) => KernelKind::BitsetLookup,
            KernelStorage::Never => KernelKind::Never,
        }
    }

    /// Returns the offset of the first matching byte in `haystack`.
    pub fn first_match(&self, haystack: &[u8]) -> (found: Option<usize>)
        ensures
            search::is_first_match(self@, haystack@, found),
    {
        match self.kernel_storage {
            KernelStorage::SwarAny1(kernel) => swar::find_first(haystack, kernel),
            KernelStorage::SwarAny2(kernel) => swar::find_first(haystack, kernel),
            KernelStorage::SwarAny3(kernel) => swar::find_first(haystack, kernel),
            KernelStorage::SwarRange(kernel) => swar::find_first(haystack, kernel),
            KernelStorage::SwarNotByte(kernel) => swar::find_first(haystack, kernel),
            KernelStorage::SwarBitset(kernel) => swar::find_first(haystack, kernel),
            KernelStorage::Bytewise(kernel) => bytewise::find_first(haystack, kernel),
            KernelStorage::VectorAny1(level, kernel) => vector::first_match(level, haystack, kernel),
            KernelStorage::VectorAny2(level, kernel) => vector::first_match(level, haystack, kernel),
            KernelStorage::VectorAny3(level, kernel) => vector::first_match(level, haystack, kernel),
            KernelStorage::VectorRange(level, kernel) => vector::first_match(level, haystack, kernel),
            KernelStorage::VectorSmallSet(level, kernel) => vector::first_match(level, haystack, kernel),
            KernelStorage::VectorFixedNibble(level, kernel) => vector::first_match(level, haystack, kernel),
            KernelStorage::VectorNotByte(level, kernel) => vector::first_match(level, haystack, kernel),
            KernelStorage::VectorBitset(level, kernel) => vector::first_match(level, haystack, kernel),
            KernelStorage::Never => None,
        }
    }

    /// Counts the matching bytes in `haystack`.
    pub fn count_all(&self, haystack: &[u8]) -> (total: usize)
        ensures
            total == search::match_offsets(self@, haystack@).len(),
    {
        proof {
            if self.kernel_storage is Never {
                bits::lemma_positions_none(
                    search::hits(self@, haystack@),
                    0,
                    haystack@.len() as int,
                );
            }
        }
        match self.kernel_storage {
            KernelStorage::SwarAny1(kernel) => swar::count_all(haystack, kernel),
            KernelStorage::SwarAny2(kernel) => swar::count_all(haystack, kernel),
            KernelStorage::SwarAny3(kernel) => swar::count_all(haystack, kernel),
            KernelStorage::SwarRange(kernel) => swar::count_all(haystack, kernel),
            KernelStorage::SwarNotByte(kernel) => swar::count_all(haystack, kernel),
            KernelStorage::SwarBitset(kernel) => swar::count_all(haystack, kernel),
            KernelStorage::Bytewise(kernel) => bytewise::count(haystack, kernel),
            KernelStorage::VectorAny1(level, kernel) => vector::count_all(level, haystack, kernel),
            KernelStorage::VectorAny2(level, kernel) => vector::count_all(level, haystack, kernel),
            KernelStorage::VectorAny3(level, kernel) => vector::count_all(level, haystack, kernel),
            KernelStorage::VectorRange(level, kernel) => vector::count_all(level, haystack, kernel),
            KernelStorage::VectorSmallSet(level, kernel) => vector::count_all(level, haystack, kernel),
            KernelStorage::VectorFixedNibble(level, kernel) => vector::count_all(level, haystack, kernel),
            KernelStorage::VectorNotByte(level, kernel) => vector::count_all(level, haystack, kernel),
            KernelStorage::VectorBitset(level, kernel) => vector::count_all(level, haystack, kernel),
            KernelStorage::Never => 0,
        }
    }

    /// Scans from `state.scan_offset` until it finds matches or reaches the end.
    pub fn next_match_batch(&self, state: &mut IterState<'_>) -> (matched: MatchedBitset)
        requires
            old(state).scan_offset <= old(state).haystack@.len(),
        ensures
            search::is_next_batch(self@, *old(state), *final(state), matched),
    {
        match self.kernel_storage {
            KernelStorage::SwarAny1(kernel) => swar::find_next(state, kernel),
            KernelStorage::SwarAny2(kernel) => swar::find_next(state, kernel),
            KernelStorage::SwarAny3(kernel) => swar::find_next(state, kernel),
            KernelStorage::SwarRange(kernel) => swar::find_next(state, kernel),
            KernelStorage::SwarNotByte(kernel) => swar::find_next(state, kernel),
            KernelStorage::SwarBitset(kernel) => swar::find_next(state, kernel),
            KernelStorage::Bytewise(kernel) => bytewise::find_next(state, kernel),
            KernelStorage::VectorAny1(level, kernel) => vector::next_match_batch(level, state, kernel),
            KernelStorage::VectorAny2(level, kernel) => vector::next_match_batch(level, state, kernel),
            KernelStorage::VectorAny3(level, kernel) => vector::next_match_batch(level, state, kernel),
            KernelStorage::VectorRange(level, kernel) => vector::next_match_batch(level, state, kernel),
            KernelStorage::VectorSmallSet(level, kernel) => vector::next_match_batch(level, state, kernel),
            KernelStorage::VectorFixedNibble(level, kernel) => vector::next_match_batch(level, state, kernel),
            KernelStorage::VectorNotByte(level, kernel) => vector::next_match_batch(level, state, kernel),
            KernelStorage::VectorBitset(level, kernel) => vector::next_match_batch(level, state, kernel),
            KernelStorage::Never => {
                state.scan_offset = state.haystack.len();
                state.match_base = state.scan_offset;
                proof {
                    bits::lemma_wide_bits(0, 0);
                }
                0
            },
        }
    }
}

} // verus!
