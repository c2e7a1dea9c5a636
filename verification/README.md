# memchr_n

Finds and walks over the positions of every byte in a haystack that belongs to a set of byte values
of any size, with SIMD instructions where the machine has them. The library is written in Verus:
every function states in its contract what it returns, and is proved to do so, but for the `fmt` of
the `Debug` impls, which hand verified values on to a formatter.

```rust
use memchr_n::{ByteSet, MemchrN};

let mut not_identifier = ByteSet::from_bytes(b"_");
not_identifier.add_range(b'0'..=b'9');
not_identifier.add_range(b'a'..=b'z');
not_identifier.add_range(b'A'..=b'Z');
not_identifier.invert();

let finder = MemchrN::from_byte_set(not_identifier);
assert_eq!(finder.find(b"some_name(x)"), Some(9));
assert_eq!(finder.iter(b"a+b=c").collect::<Vec<_>>(), vec![1, 3]);
```

## What is proved

- `find` returns the offset of the first byte of the haystack that belongs to the set, or `None`
  when there is none.
- `iter` yields the offsets of all such bytes in ascending order; `nth`, `count`, `advance_to` and
  `size_hint` are specified over the offsets that are still pending.
- The kernel and the engine that a searcher uses are a function of the set and of the engine that
  the backend stands for.
- A set that is collected byte by byte is held as a list, a range or a table, by rules that `Form`
  states; adding what is a member already changes nothing.
- No operation panics, overflows or reads outside a haystack.

`src/laws.rs` states what holds of these operations together, such as that the outcome of a search
does not depend on the kernel that runs it.

## Layout

| Module | Contents |
| --- | --- |
| `bits` | words as rows of bits, and the ascending positions that a row of bits marks |
| `bitset` | `ByteSet` and ranges of bytes |
| `nibbles` | sets taken apart into nibbles, as the shuffling kernels need them |
| `search` | what a search answers, and the state of a scan |
| `swar` | scans eight bytes at a time in the lanes of a word |
| `vector` | scans with vectors; `vector::lanes` holds the calls into `fearless_simd` |
| `bytewise` | scans one byte at a time |
| `plan` | a kernel together with the scan that runs it |
| `engine` | backends and engines |
| `memchr`, `iter` | `MemchrN` and `Iter` |
| `bytes`, `kind` | sets that are collected byte by byte, and the forms in which they are matched |
| `text` | text for diagnostics |
| `laws` | laws |

`app/` holds the fuzz targets and the conversions from `RangeBounds`.

## What is trusted

The contracts of the functions of `fearless_simd` and of the standard library that the library
calls are believed: the lane comparisons and shuffles in `vector::lanes`, the queries on `Level`,
the bit counts in `bits`, the ends of a `RangeInclusive` in `bitset`, and in `text` the derived
`Debug` text of a `Level` and appending to a `String`. The library is for x86 targets, whose
instruction sets `vector::lanes` tells apart.

Of what a formatter receives nothing is claimed. The text of a set or a searcher is fixed by the
contract of its `debug_string`; that `{:?}` gives the same text is shown by tests.
