//! Finds the positions of every byte in a haystack that belongs to a set of byte values of any
//! size.
//!
//! A [`MemchrN`] is built once for a set of bytes and then searches any number of haystacks, with
//! [`MemchrN::find`] for the first match and [`MemchrN::iter`] for all of them. A [`ByteSet`]
//! describes an arbitrary set of bytes; sets combine with the operators `|`, `&`, `^`, `-` and `!`.

#![allow(unused_imports)]

pub mod bits;
pub mod bitset;
pub mod bytes;
pub mod bytewise;
pub mod engine;
pub mod iter;
pub mod kind;
pub mod laws;
pub mod memchr;
pub mod nibbles;
pub mod plan;
pub mod search;
pub mod swar;
pub mod text;
pub mod vector;

pub use crate::bitset::ByteSet;
pub use crate::bytes::Bytes;
pub use crate::engine::Backend;
pub use crate::iter::Iter;
pub use crate::memchr::MemchrN;
pub use fearless_simd::Level;
