//! Vectors of bytes, and the instruction sets that work on them.
//!
//! Every call into `fearless_simd` is made here. A level is told apart by its variants, which are
//! those of x86 targets and the scalar fallback; each operation does the same at every level.

use crate::bits;
use fearless_simd::{u8x16, u8x32, u8x64, Avx2, Avx512, Fallback, Level, Sse2, Sse4_2};
use fearless_simd::{SimdBase, SimdMask};
use vstd::array::array_as_slice;
use vstd::prelude::*;
use vstd::slice::*;

verus! {

/// Proof that AVX-512 is available.
#[verifier::external_type_specification]
#[verifier::external_body]
pub struct ExAvx512(Avx512);

/// Proof that AVX2 is available.
#[verifier::external_type_specification]
#[verifier::external_body]
pub struct ExAvx2(Avx2);

/// Proof that SSE4.2 is available.
#[verifier::external_type_specification]
#[verifier::external_body]
pub struct ExSse42(Sse4_2);

/// Proof that SSE2 is available.
#[verifier::external_type_specification]
#[verifier::external_body]
pub struct ExSse2(Sse2);

/// The token of the scalar fallback.
#[verifier::external_type_specification]
#[verifier::external_body]
pub struct ExFallback(Fallback);

/// The instruction set that vectors are worked on with.
#[verifier::external_type_specification]
pub struct ExLevel(fearless_simd::Level);

/// `Level::is_fallback` says whether the level is the scalar one.
pub assume_specification[ fearless_simd::Level::is_fallback ](
    level: fearless_simd::Level,
) -> (fallback: bool)
    ensures
        fallback == level is Fallback,
;

/// `Level::as_sse4_2` gives the SSE4.2 token at the levels that include SSE4.2.
pub assume_specification[ fearless_simd::Level::as_sse4_2 ](
    level: fearless_simd::Level,
) -> (token: Option<Sse4_2>)
    ensures
        token is Some == (level is Sse4_2 || level is Avx2 || level is Avx512),
;

/// `Level::new` detects the best level of the machine: which one that is, is left open.
pub assume_specification[ fearless_simd::Level::new ]() -> (level: fearless_simd::Level)
;

/// Whether the bits of `mask` tell which of the first `len` positions `p` holds at.
pub open spec fn is_mask(mask: u64, len: int, p: spec_fn(int) -> bool) -> bool {
    forall|k: int| #[trigger] bits::bit(mask, k) == (0 <= k < len && p(k))
}

/// `u8x16::simd_eq`, read out with `to_bitmask`: bit `k` of the mask is set where lane `k` of `a`
/// is equal to lane `k` of `b`, and the bits above the lanes are clear.
#[verifier::external_body]
fn eq_16(level: Level, a: &[u8; 16], b: &[u8; 16]) -> (mask: u64)
    ensures
        is_mask(mask, 16, |k: int| a@[k] == b@[k]),
{
    match level {
        Level::Avx512(s) => u8x16::load_array(s, *a).simd_eq(*b).to_bitmask(),
        Level::Avx2(s) => u8x16::load_array(s, *a).simd_eq(*b).to_bitmask(),
        Level::Sse4_2(s) => u8x16::load_array(s, *a).simd_eq(*b).to_bitmask(),
        Level::Sse2(s) => u8x16::load_array(s, *a).simd_eq(*b).to_bitmask(),
        _ => u8x16::load_array(Fallback::new(), *a).simd_eq(*b).to_bitmask(),
    }
}

/// `u8x16::simd_ge`, read out with `to_bitmask`: bit `k` of the mask is set where lane `k` of `a`
/// is at least lane `k` of `b`, and the bits above the lanes are clear.
#[verifier::external_body]
fn ge_16(level: Level, a: &[u8; 16], b: &[u8; 16]) -> (mask: u64)
    ensures
        is_mask(mask, 16, |k: int| a@[k] >= b@[k]),
{
    match level {
        Level::Avx512(s) => u8x16::load_array(s, *a).simd_ge(*b).to_bitmask(),
        Level::Avx2(s) => u8x16::load_array(s, *a).simd_ge(*b).to_bitmask(),
        Level::Sse4_2(s) => u8x16::load_array(s, *a).simd_ge(*b).to_bitmask(),
        Level::Sse2(s) => u8x16::load_array(s, *a).simd_ge(*b).to_bitmask(),
        _ => u8x16::load_array(Fallback::new(), *a).simd_ge(*b).to_bitmask(),
    }
}

/// `u8x16::simd_le`, read out with `to_bitmask`: bit `k` of the mask is set where lane `k` of `a`
/// is at most lane `k` of `b`, and the bits above the lanes are clear.
#[verifier::external_body]
fn le_16(level: Level, a: &[u8; 16], b: &[u8; 16]) -> (mask: u64)
    ensures
        is_mask(mask, 16, |k: int| a@[k] <= b@[k]),
{
    match level {
        Level::Avx512(s) => u8x16::load_array(s, *a).simd_le(*b).to_bitmask(),
        Level::Avx2(s) => u8x16::load_array(s, *a).simd_le(*b).to_bitmask(),
        Level::Sse4_2(s) => u8x16::load_array(s, *a).simd_le(*b).to_bitmask(),
        Level::Sse2(s) => u8x16::load_array(s, *a).simd_le(*b).to_bitmask(),
        _ => u8x16::load_array(Fallback::new(), *a).simd_le(*b).to_bitmask(),
    }
}

/// `u8x32::simd_eq`, read out with `to_bitmask`: bit `k` of the mask is set where lane `k` of `a`
/// is equal to lane `k` of `b`, and the bits above the lanes are clear.
#[verifier::external_body]
fn eq_32(level: Level, a: &[u8; 32], b: &[u8; 32]) -> (mask: u64)
    ensures
        is_mask(mask, 32, |k: int| a@[k] == b@[k]),
{
    match level {
        Level::Avx512(s) => u8x32::load_array(s, *a).simd_eq(*b).to_bitmask(),
        Level::Avx2(s) => u8x32::load_array(s, *a).simd_eq(*b).to_bitmask(),
        Level::Sse4_2(s) => u8x32::load_array(s, *a).simd_eq(*b).to_bitmask(),
        Level::Sse2(s) => u8x32::load_array(s, *a).simd_eq(*b).to_bitmask(),
        _ => u8x32::load_array(Fallback::new(), *a).simd_eq(*b).to_bitmask(),
    }
}

/// `u8x32::simd_ge`, read out with `to_bitmask`: bit `k` of the mask is set where lane `k` of `a`
/// is at least lane `k` of `b`, and the bits above the lanes are clear.
#[verifier::external_body]
fn ge_32(level: Level, a: &[u8; 32], b: &[u8; 32]) -> (mask: u64)
    ensures
        is_mask(mask, 32, |k: int| a@[k] >= b@[k]),
{
    match level {
        Level::Avx512(s) => u8x32::load_array(s, *a).simd_ge(*b).to_bitmask(),
        Level::Avx2(s) => u8x32::load_array(s, *a).simd_ge(*b).to_bitmask(),
        Level::Sse4_2(s) => u8x32::load_array(s, *a).simd_ge(*b).to_bitmask(),
        Level::Sse2(s) => u8x32::load_array(s, *a).simd_ge(*b).to_bitmask(),
        _ => u8x32::load_array(Fallback::new(), *a).simd_ge(*b).to_bitmask(),
    }
}

/// `u8x32::simd_le`, read out with `to_bitmask`: bit `k` of the mask is set where lane `k` of `a`
/// is at most lane `k` of `b`, and the bits above the lanes are clear.
#[verifier::external_body]
fn le_32(level: Level, a: &[u8; 32], b: &[u8; 32]) -> (mask: u64)
    ensures
        is_mask(mask, 32, |k: int| a@[k] <= b@[k]),
{
    match level {
        Level::Avx512(s) => u8x32::load_array(s, *a).simd_le(*b).to_bitmask(),
        Level::Avx2(s) => u8x32::load_array(s, *a).simd_le(*b).to_bitmask(),
        Level::Sse4_2(s) => u8x32::load_array(s, *a).simd_le(*b).to_bitmask(),
        Level::Sse2(s) => u8x32::load_array(s, *a).simd_le(*b).to_bitmask(),
        _ => u8x32::load_array(Fallback::new(), *a).simd_le(*b).to_bitmask(),
    }
}

/// `u8x64::simd_eq`, read out with `to_bitmask`: bit `k` of the mask is set where lane `k` of `a`
/// is equal to lane `k` of `b`, and the bits above the lanes are clear.
#[verifier::external_body]
fn eq_64(level: Level, a: &[u8; 64], b: &[u8; 64]) -> (mask: u64)
    ensures
        is_mask(mask, 64, |k: int| a@[k] == b@[k]),
{
    match level {
        Level::Avx512(s) => u8x64::load_array(s, *a).simd_eq(*b).to_bitmask(),
        Level::Avx2(s) => u8x64::load_array(s, *a).simd_eq(*b).to_bitmask(),
        Level::Sse4_2(s) => u8x64::load_array(s, *a).simd_eq(*b).to_bitmask(),
        Level::Sse2(s) => u8x64::load_array(s, *a).simd_eq(*b).to_bitmask(),
        _ => u8x64::load_array(Fallback::new(), *a).simd_eq(*b).to_bitmask(),
    }
}

/// `u8x64::simd_ge`, read out with `to_bitmask`: bit `k` of the mask is set where lane `k` of `a`
/// is at least lane `k` of `b`, and the bits above the lanes are clear.
#[verifier::external_body]
fn ge_64(level: Level, a: &[u8; 64], b: &[u8; 64]) -> (mask: u64)
    ensures
        is_mask(mask, 64, |k: int| a@[k] >= b@[k]),
{
    match level {
        Level::Avx512(s) => u8x64::load_array(s, *a).simd_ge(*b).to_bitmask(),
        Level::Avx2(s) => u8x64::load_array(s, *a).simd_ge(*b).to_bitmask(),
        Level::Sse4_2(s) => u8x64::load_array(s, *a).simd_ge(*b).to_bitmask(),
        Level::Sse2(s) => u8x64::load_array(s, *a).simd_ge(*b).to_bitmask(),
        _ => u8x64::load_array(Fallback::new(), *a).simd_ge(*b).to_bitmask(),
    }
}

/// `u8x64::simd_le`, read out with `to_bitmask`: bit `k` of the mask is set where lane `k` of `a`
/// is at most lane `k` of `b`, and the bits above the lanes are clear.
#[verifier::external_body]
fn le_64(level: Level, a: &[u8; 64], b: &[u8; 64]) -> (mask: u64)
    ensures
        is_mask(mask, 64, |k: int| a@[k] <= b@[k]),
{
    match level {
        Level::Avx512(s) => u8x64::load_array(s, *a).simd_le(*b).to_bitmask(),
        Level::Avx2(s) => u8x64::load_array(s, *a).simd_le(*b).to_bitmask(),
        Level::Sse4_2(s) => u8x64::load_array(s, *a).simd_le(*b).to_bitmask(),
        Level::Sse2(s) => u8x64::load_array(s, *a).simd_le(*b).to_bitmask(),
        _ => u8x64::load_array(Fallback::new(), *a).simd_le(*b).to_bitmask(),
    }
}

/// `u8x16::swizzle_dyn_within_blocks`: each index picks a byte of the block of sixteen that it
/// stands in. Indices past the block, whose outcome depends on the machine, are left out.
#[verifier::external_body]
fn swizzle_within_blocks_16(level: Level, a: &[u8; 16], b: &[u8; 16]) -> (picked: [u8; 16])
    requires
        forall|k: int| 0 <= k < 16 ==> #[trigger] b@[k] < 16,
    ensures
        forall|k: int| 0 <= k < 16 ==> #[trigger] picked@[k] == a@[k - k % 16 + b@[k]],
{
    match level {
        Level::Avx512(s) => u8x16::load_array(s, *a).swizzle_dyn_within_blocks(*b).into(),
        Level::Avx2(s) => u8x16::load_array(s, *a).swizzle_dyn_within_blocks(*b).into(),
        Level::Sse4_2(s) => u8x16::load_array(s, *a).swizzle_dyn_within_blocks(*b).into(),
        Level::Sse2(s) => u8x16::load_array(s, *a).swizzle_dyn_within_blocks(*b).into(),
        _ => u8x16::load_array(Fallback::new(), *a).swizzle_dyn_within_blocks(*b).into(),
    }
}

/// `u8x32::swizzle_dyn_within_blocks`: each index picks a byte of the block of sixteen that it
/// stands in. Indices past the block, whose outcome depends on the machine, are left out.
#[verifier::external_body]
fn swizzle_within_blocks_32(level: Level, a: &[u8; 32], b: &[u8; 32]) -> (picked: [u8; 32])
    requires
        forall|k: int| 0 <= k < 32 ==> #[trigger] b@[k] < 16,
    ensures
        forall|k: int| 0 <= k < 32 ==> #[trigger] picked@[k] == a@[k - k % 16 + b@[k]],
{
    match level {
        Level::Avx512(s) => u8x32::load_array(s, *a).swizzle_dyn_within_blocks(*b).into(),
        Level::Avx2(s) => u8x32::load_array(s, *a).swizzle_dyn_within_blocks(*b).into(),
        Level::Sse4_2(s) => u8x32::load_array(s, *a).swizzle_dyn_within_blocks(*b).into(),
        Level::Sse2(s) => u8x32::load_array(s, *a).swizzle_dyn_within_blocks(*b).into(),
        _ => u8x32::load_array(Fallback::new(), *a).swizzle_dyn_within_blocks(*b).into(),
    }
}

/// `u8x64::swizzle_dyn_within_blocks`: each index picks a byte of the block of sixteen that it
/// stands in. Indices past the block, whose outcome depends on the machine, are left out.
#[verifier::external_body]
fn swizzle_within_blocks_64(level: Level, a: &[u8; 64], b: &[u8; 64]) -> (picked: [u8; 64])
    requires
        forall|k: int| 0 <= k < 64 ==> #[trigger] b@[k] < 16,
    ensures
        forall|k: int| 0 <= k < 64 ==> #[trigger] picked@[k] == a@[k - k % 16 + b@[k]],
{
    match level {
        Level::Avx512(s) => u8x64::load_array(s, *a).swizzle_dyn_within_blocks(*b).into(),
        Level::Avx2(s) => u8x64::load_array(s, *a).swizzle_dyn_within_blocks(*b).into(),
        Level::Sse4_2(s) => u8x64::load_array(s, *a).swizzle_dyn_within_blocks(*b).into(),
        Level::Sse2(s) => u8x64::load_array(s, *a).swizzle_dyn_within_blocks(*b).into(),
        _ => u8x64::load_array(Fallback::new(), *a).swizzle_dyn_within_blocks(*b).into(),
    }
}

/// `u8x32::swizzle_dyn`: each index picks a byte of the whole vector. Indices past its end, whose
/// outcome depends on the machine, are left out.
#[verifier::external_body]
fn swizzle_32(level: Level, a: &[u8; 32], b: &[u8; 32]) -> (picked: [u8; 32])
    requires
        forall|k: int| 0 <= k < 32 ==> #[trigger] b@[k] < 32,
    ensures
        forall|k: int| 0 <= k < 32 ==> #[trigger] picked@[k] == a@[b@[k] as int],
{
    match level {
        Level::Avx512(s) => u8x32::load_array(s, *a).swizzle_dyn(*b).into(),
        Level::Avx2(s) => u8x32::load_array(s, *a).swizzle_dyn(*b).into(),
        Level::Sse4_2(s) => u8x32::load_array(s, *a).swizzle_dyn(*b).into(),
        Level::Sse2(s) => u8x32::load_array(s, *a).swizzle_dyn(*b).into(),
        _ => u8x32::load_array(Fallback::new(), *a).swizzle_dyn(*b).into(),
    }
}

/// `u8x16::concat_swizzle_dyn`: each index picks a byte of `a` followed by `b`. Indices past their
/// end, whose outcome depends on the machine, are left out.
#[verifier::external_body]
fn concat_swizzle_16(level: Level, a: &[u8; 16], b: &[u8; 16], i: &[u8; 16]) -> (picked: [u8; 16])
    requires
        forall|k: int| 0 <= k < 16 ==> #[trigger] i@[k] < 32,
    ensures
        forall|k: int| 0 <= k < 16 ==> #[trigger] picked@[k] == (a@ + b@)[i@[k] as int],
{
    match level {
        Level::Avx512(s) => u8x16::load_array(s, *a).concat_swizzle_dyn(*b, *i).into(),
        Level::Avx2(s) => u8x16::load_array(s, *a).concat_swizzle_dyn(*b, *i).into(),
        Level::Sse4_2(s) => u8x16::load_array(s, *a).concat_swizzle_dyn(*b, *i).into(),
        Level::Sse2(s) => u8x16::load_array(s, *a).concat_swizzle_dyn(*b, *i).into(),
        _ => u8x16::load_array(Fallback::new(), *a).concat_swizzle_dyn(*b, *i).into(),
    }
}

/// The bytes of `haystack` from `at` on.
fn load<const N: usize>(haystack: &[u8], at: usize) -> (chunk: [u8; N])
    requires
        at + N <= haystack@.len(),
    ensures
        chunk@ == haystack@.subrange(at as int, at + N),
{
    let bytes = slice_subrange(haystack, at, haystack.len());
    assert(bytes@ =~= haystack@.skip(at as int));
    let mut chunk: [u8; N] = [0; N];
    let mut k: usize = 0;
    while k < N
        invariant
            k <= N,
            bytes@ == haystack@.skip(at as int),
            at + N <= haystack@.len(),
            forall|j: int| 0 <= j < k ==> #[trigger] chunk@[j] == bytes@[j],
        decreases N - k,
    {
        chunk[k] = bytes[k];
        k += 1;
    }
    assert(chunk@ =~= haystack@.subrange(at as int, at + N));
    chunk
}

/// Repeats a block of sixteen bytes.
fn repeat<const N: usize>(block: &[u8; 16]) -> (chunk: [u8; N])
    ensures
        forall|k: int| 0 <= k < N ==> #[trigger] chunk@[k] == block@[k % 16],
{
    let mut chunk: [u8; N] = [0; N];
    let mut k: usize = 0;
    while k < N
        invariant
            k <= N,
            forall|j: int| 0 <= j < k ==> #[trigger] chunk@[j] == block@[j % 16],
        decreases N - k,
    {
        chunk[k] = block[k % 16];
        k += 1;
    }
    chunk
}

/// Keeps the bits of `mask` in every lane.
fn keep_bits<const N: usize>(chunk: &[u8; N], mask: u8) -> (kept: [u8; N])
    ensures
        forall|k: int| 0 <= k < N ==> #[trigger] kept@[k] == chunk@[k] & mask,
{
    let mut kept: [u8; N] = [0; N];
    let mut k: usize = 0;
    while k < N
        invariant
            k <= N,
            forall|j: int| 0 <= j < k ==> #[trigger] kept@[j] == chunk@[j] & mask,
        decreases N - k,
    {
        kept[k] = chunk[k] & mask;
        k += 1;
    }
    kept
}

/// Keeps the bits that both chunks have, lane by lane.
fn common_bits<const N: usize>(a: &[u8; N], b: &[u8; N]) -> (kept: [u8; N])
    ensures
        forall|k: int| 0 <= k < N ==> #[trigger] kept@[k] == a@[k] & b@[k],
{
    let mut kept: [u8; N] = [0; N];
    let mut k: usize = 0;
    while k < N
        invariant
            k <= N,
            forall|j: int| 0 <= j < k ==> #[trigger] kept@[j] == a@[j] & b@[j],
        decreases N - k,
    {
        kept[k] = a[k] & b[k];
        k += 1;
    }
    kept
}

/// Shifts every lane down by `by` bits.
fn shift_down<const N: usize>(chunk: &[u8; N], by: u8) -> (shifted: [u8; N])
    requires
        by < 8,
    ensures
        forall|k: int| 0 <= k < N ==> #[trigger] shifted@[k] == chunk@[k] >> by,
{
    let mut shifted: [u8; N] = [0; N];
    let mut k: usize = 0;
    while k < N
        invariant
            k <= N,
            by < 8,
            forall|j: int| 0 <= j < k ==> #[trigger] shifted@[j] == chunk@[j] >> by,
        decreases N - k,
    {
        shifted[k] = chunk[k] >> by;
        k += 1;
    }
    shifted
}

/// A vector of 16, 32 or 64 bytes.
pub trait Lanes: Copy + View<V = Seq<u8>> {
    /// The number of lanes.
    spec fn width() -> int;

    /// A vector has as many lanes as its type says.
    proof fn lemma_width(&self)
        ensures
            self@.len() == Self::width(),
            Self::width() == 16 || Self::width() == 32 || Self::width() == 64,
    ;

    /// Loads the bytes of `haystack` from `at` on.
    fn load(haystack: &[u8], at: usize) -> (chunk: Self)
        requires
            at + Self::width() <= haystack@.len(),
        ensures
            chunk@ == haystack@.subrange(at as int, at + Self::width()),
    ;

    /// Repeats a block of sixteen bytes.
    fn block_splat(block: &[u8; 16]) -> (chunk: Self)
        ensures
            chunk@.len() == Self::width(),
            forall|k: int| 0 <= k < Self::width() ==> #[trigger] chunk@[k] == block@[k % 16],
    ;

    /// Keeps the bits of `mask` in every lane.
    fn keep_bits(&self, mask: u8) -> (kept: Self)
        ensures
            kept@.len() == Self::width(),
            forall|k: int| 0 <= k < Self::width() ==> #[trigger] kept@[k] == self@[k] & mask,
    ;

    /// Keeps the bits that both vectors have, lane by lane.
    fn common_bits(&self, other: &Self) -> (kept: Self)
        ensures
            kept@.len() == Self::width(),
            forall|k: int| 0 <= k < Self::width() ==> #[trigger] kept@[k] == self@[k] & other@[k],
    ;

    /// Shifts every lane down by `by` bits.
    fn shift_down(&self, by: u8) -> (shifted: Self)
        requires
            by < 8,
        ensures
            shifted@.len() == Self::width(),
            forall|k: int| 0 <= k < Self::width() ==> #[trigger] shifted@[k] == self@[k] >> by,
    ;

    /// Tells which lanes are equal to those of `other`.
    fn lanes_eq(&self, level: Level, other: &Self) -> (mask: u64)
        ensures
            is_mask(mask, Self::width(), |k: int| self@[k] == other@[k]),
    ;

    /// Tells which lanes are at least those of `other`.
    fn lanes_ge(&self, level: Level, other: &Self) -> (mask: u64)
        ensures
            is_mask(mask, Self::width(), |k: int| self@[k] >= other@[k]),
    ;

    /// Tells which lanes are at most those of `other`.
    fn lanes_le(&self, level: Level, other: &Self) -> (mask: u64)
        ensures
            is_mask(mask, Self::width(), |k: int| self@[k] <= other@[k]),
    ;

    /// The mask of the other lanes.
    fn other_lanes(mask: u64) -> (others: u64)
        ensures
            is_mask(others, Self::width(), |k: int| !bits::bit(mask, k)),
    ;

    /// Picks for every index a byte of the block of sixteen that the index stands in.
    fn swizzle_within_blocks(&self, level: Level, indices: &Self) -> (picked: Self)
        requires
            forall|k: int| 0 <= k < Self::width() ==> #[trigger] indices@[k] < 16,
        ensures
            picked@.len() == Self::width(),
            forall|k: int|
                0 <= k < Self::width() ==> #[trigger] picked@[k] == self@[k - k % 16 + indices@[k]],
    ;

    /// Picks for every index a byte of `table`.
    fn look_up(level: Level, table: &[u8; 32], indices: &Self) -> (picked: Self)
        requires
            forall|k: int| 0 <= k < Self::width() ==> #[trigger] indices@[k] < 32,
        ensures
            picked@.len() == Self::width(),
            forall|k: int|
                0 <= k < Self::width() ==> #[trigger] picked@[k] == table@[indices@[k] as int],
    ;
}

/// The half of a vector of 64 lanes that starts at `at`.
fn half(chunk: &[u8; 64], at: usize) -> (part: [u8; 32])
    requires
        at <= 32,
    ensures
        part@ == chunk@.subrange(at as int, at + 32),
{
    load(array_as_slice(chunk), at)
}

proof fn lemma_lane_masks()
    ensures
        forall|k: int| #[trigger] bits::bit(0xFFFF, k) == (0 <= k < 16),
        forall|k: int| #[trigger] bits::bit(0xFFFF_FFFF, k) == (0 <= k < 32),
{
    assert forall|k: int| #[trigger] bits::bit(0xFFFF, k) == (0 <= k < 16) by {
        if 0 <= k < 64 {
            lemma_lane_mask(k as u64);
        }
    }
    assert forall|k: int| #[trigger] bits::bit(0xFFFF_FFFF, k) == (0 <= k < 32) by {
        if 0 <= k < 64 {
            lemma_lane_mask(k as u64);
        }
    }
}

proof fn lemma_lane_mask(k: u64)
    by (bit_vector)
    requires
        k < 64,
    ensures
        (0xFFFFu64 >> k) & 1 == 1 <==> k < 16,
        (0xFFFF_FFFFu64 >> k) & 1 == 1 <==> k < 32,
{
}

impl Lanes for [u8; 16] {
    open spec fn width() -> int {
        16
    }

    proof fn lemma_width(&self) {
    }

    fn load(haystack: &[u8], at: usize) -> (chunk: [u8; 16]) {
        load(haystack, at)
    }

    fn block_splat(block: &[u8; 16]) -> (chunk: [u8; 16]) {
        repeat(block)
    }

    fn keep_bits(&self, mask: u8) -> (kept: [u8; 16]) {
        keep_bits(self, mask)
    }

    fn common_bits(&self, other: &[u8; 16]) -> (kept: [u8; 16]) {
        common_bits(self, other)
    }

    fn shift_down(&self, by: u8) -> (shifted: [u8; 16]) {
        shift_down(self, by)
    }

    fn lanes_eq(&self, level: Level, other: &[u8; 16]) -> (mask: u64) {
        eq_16(level, self, other)
    }

    fn lanes_ge(&self, level: Level, other: &[u8; 16]) -> (mask: u64) {
        ge_16(level, self, other)
    }

    fn lanes_le(&self, level: Level, other: &[u8; 16]) -> (mask: u64) {
        le_16(level, self, other)
    }

    fn other_lanes(mask: u64) -> (others: u64) {
        proof {
            lemma_lane_masks();
            bits::lemma_bit_ops(mask, 0);
            bits::lemma_bit_ops(!mask, 0xFFFF);
        }
        !mask & 0xFFFF
    }

    fn swizzle_within_blocks(&self, level: Level, indices: &[u8; 16]) -> (picked: [u8; 16]) {
        swizzle_within_blocks_16(level, self, indices)
    }

    fn look_up(level: Level, table: &[u8; 32], indices: &[u8; 16]) -> (picked: [u8; 16]) {
        let (mut low, mut high): ([u8; 16], [u8; 16]) = ([0; 16], [0; 16]);
        let mut k: usize = 0;
        while k < 16
            invariant
                k <= 16,
                forall|j: int| 0 <= j < k ==> #[trigger] low@[j] == table@[j],
                forall|j: int| 0 <= j < k ==> #[trigger] high@[j] == table@[16 + j],
            decreases 16 - k,
        {
            low[k] = table[k];
            high[k] = table[16 + k];
            k += 1;
        }
        assert(low@ + high@ =~= table@);
        concat_swizzle_16(level, &low, &high, indices)
    }
}

impl Lanes for [u8; 32] {
    open spec fn width() -> int {
        32
    }

    proof fn lemma_width(&self) {
    }

    fn load(haystack: &[u8], at: usize) -> (chunk: [u8; 32]) {
        load(haystack, at)
    }

    fn block_splat(block: &[u8; 16]) -> (chunk: [u8; 32]) {
        repeat(block)
    }

    fn keep_bits(&self, mask: u8) -> (kept: [u8; 32]) {
        keep_bits(self, mask)
    }

    fn common_bits(&self, other: &[u8; 32]) -> (kept: [u8; 32]) {
        common_bits(self, other)
    }

    fn shift_down(&self, by: u8) -> (shifted: [u8; 32]) {
        shift_down(self, by)
    }

    fn lanes_eq(&self, level: Level, other: &[u8; 32]) -> (mask: u64) {
        eq_32(level, self, other)
    }

    fn lanes_ge(&self, level: Level, other: &[u8; 32]) -> (mask: u64) {
        ge_32(level, self, other)
    }

    fn lanes_le(&self, level: Level, other: &[u8; 32]) -> (mask: u64) {
        le_32(level, self, other)
    }

    fn other_lanes(mask: u64) -> (others: u64) {
        proof {
            lemma_lane_masks();
            bits::lemma_bit_ops(mask, 0);
            bits::lemma_bit_ops(!mask, 0xFFFF_FFFF);
        }
        !mask & 0xFFFF_FFFF
    }

    fn swizzle_within_blocks(&self, level: Level, indices: &[u8; 32]) -> (picked: [u8; 32]) {
        swizzle_within_blocks_32(level, self, indices)
    }

    fn look_up(level: Level, table: &[u8; 32], indices: &[u8; 32]) -> (picked: [u8; 32]) {
        swizzle_32(level, table, indices)
    }
}

impl Lanes for [u8; 64] {
    open spec fn width() -> int {
        64
    }

    proof fn lemma_width(&self) {
    }

    fn load(haystack: &[u8], at: usize) -> (chunk: [u8; 64]) {
        load(haystack, at)
    }

    fn block_splat(block: &[u8; 16]) -> (chunk: [u8; 64]) {
        repeat(block)
    }

    fn keep_bits(&self, mask: u8) -> (kept: [u8; 64]) {
        keep_bits(self, mask)
    }

    fn common_bits(&self, other: &[u8; 64]) -> (kept: [u8; 64]) {
        common_bits(self, other)
    }

    fn shift_down(&self, by: u8) -> (shifted: [u8; 64]) {
        shift_down(self, by)
    }

    fn lanes_eq(&self, level: Level, other: &[u8; 64]) -> (mask: u64) {
        eq_64(level, self, other)
    }

    fn lanes_ge(&self, level: Level, other: &[u8; 64]) -> (mask: u64) {
        ge_64(level, self, other)
    }

    fn lanes_le(&self, level: Level, other: &[u8; 64]) -> (mask: u64) {
        le_64(level, self, other)
    }

    fn other_lanes(mask: u64) -> (others: u64) {
        proof {
            bits::lemma_bit_ops(mask, 0);
        }
        !mask
    }

    fn swizzle_within_blocks(&self, level: Level, indices: &[u8; 64]) -> (picked: [u8; 64]) {
        swizzle_within_blocks_64(level, self, indices)
    }

    fn look_up(level: Level, table: &[u8; 32], indices: &[u8; 64]) -> (picked: [u8; 64]) {
        let (low, high) = (half(indices, 0), half(indices, 32));
        assert forall|k: int| 0 <= k < 32 implies #[trigger] low@[k] < 32 by {
            assert(low@[k] == indices@[k]);
        }
        assert forall|k: int| 0 <= k < 32 implies #[trigger] high@[k] < 32 by {
            assert(high@[k] == indices@[32 + k]);
        }
        let (front, back) = (swizzle_32(level, table, &low), swizzle_32(level, table, &high));
        let mut picked: [u8; 64] = [0; 64];
        let mut k: usize = 0;
        while k < 32
            invariant
                k <= 32,
                forall|j: int| 0 <= j < k ==> #[trigger] picked@[j] == front@[j],
                forall|j: int| 32 <= j < 32 + k ==> #[trigger] picked@[j] == back@[j - 32],
            decreases 32 - k,
        {
            picked[k] = front[k];
            picked[32 + k] = back[k];
            k += 1;
        }
        assert forall|k: int| 0 <= k < 64 implies #[trigger] picked@[k] == table@[indices@[k] as int] by {
            if k < 32 {
                assert(front@[k] == table@[low@[k] as int]);
            } else {
                assert(back@[k - 32] == table@[high@[k - 32] as int]);
            }
        }
        picked
    }
}

} // verus!
