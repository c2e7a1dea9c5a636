//! Walks over the matches in a haystack.

use crate::bits;
use crate::memchr::MemchrN;
use crate::search;
use crate::search::{IterState, MatchedBitset};
use vstd::prelude::*;
use vstd::slice::*;
use vstd::std_specs::iter::*;

verus! {

/// Iterates over the offsets of bytes matched by a [`MemchrN`].
///
/// Values of this type are created by [`MemchrN::iter`].
#[derive(Debug)]
pub struct Iter<'a> {
    finder: &'a MemchrN,
    state: IterState<'a>,
    match_bits: MatchedBitset,
}

impl<'a> Iter<'a> {
    /// The bits stand for matches in the window of the state, and the window fits a bitset.
    #[verifier::type_invariant]
    spec fn well_formed(self) -> bool {
        let (base, end) = (self.state.match_base, self.state.scan_offset);
        &&& base <= end <= self.state.haystack@.len()
        &&& end - base <= 128
        &&& forall|k: int| #[trigger]
            bits::bit128(self.match_bits, k) ==> k < end - base && self.finder@.contains(
                self.state.haystack@[base + k],
            )
    }

    /// Holds at the offsets that are still to be yielded: those that the bits name, and all
    /// matches that have not been scanned yet.
    spec fn pending_at(self) -> spec_fn(int) -> bool {
        |i: int|
            if i < self.state.scan_offset {
                bits::bit128(self.match_bits, i - self.state.match_base)
            } else {
                self.finder@.contains(self.state.haystack@[i])
            }
    }

    /// The bytes that are searched for.
    pub closed spec fn set(self) -> Set<u8> {
        self.finder@
    }

    /// The bytes that are searched.
    pub closed spec fn haystack(self) -> Seq<u8> {
        self.state.haystack@
    }

    /// The offsets that are still to be yielded, in the order in which they will be.
    pub closed spec fn pending(self) -> Seq<usize> {
        bits::positions(
            self.pending_at(),
            self.state.match_base as int,
            self.state.haystack@.len() as int,
        )
    }

    /// The number of matches that have been found but not yielded.
    pub closed spec fn held(self) -> nat {
        bits::count(bits::bits128_of(self.match_bits), 0, 128)
    }

    /// The number of bytes that have not been scanned.
    pub closed spec fn unscanned(self) -> int {
        self.state.haystack@.len() - self.state.scan_offset
    }

    /// Starts a walk over the matches of `finder` in `haystack`.
    pub(crate) fn new(finder: &'a MemchrN, haystack: &'a [u8]) -> (iter: Iter<'a>)
        ensures
            iter.set() == finder@,
            iter.haystack() == haystack@,
            iter.pending() == search::match_offsets(finder@, haystack@),
            iter.held() == 0,
            iter.unscanned() == haystack@.len(),
    {
        proof {
            bits::lemma_wide_bits(0, 0);
            bits::lemma_positions_none(bits::bits128_of(0), 0, 128);
        }
        let iter = Iter {
            finder,
            state: IterState { haystack, scan_offset: 0, match_base: 0 },
            match_bits: 0,
        };
        proof {
            bits::lemma_positions_agree(
                iter.pending_at(),
                search::hits(finder@, haystack@),
                0,
                haystack@.len() as int,
            );
        }
        iter
    }

    /// The pending offsets are those that the bits name, followed by the matches that have not
    /// been scanned.
    proof fn lemma_pending_parts(self)
        requires
            self.well_formed(),
        ensures
            self.pending() == bits::positions(
                self.pending_at(),
                self.state.match_base as int,
                self.state.scan_offset as int,
            ) + bits::positions(
                search::hits(self.finder@, self.state.haystack@),
                self.state.scan_offset as int,
                self.state.haystack@.len() as int,
            ),
            bits::positions(
                self.pending_at(),
                self.state.match_base as int,
                self.state.scan_offset as int,
            ).len() == self.held(),
    {
        let p = self.pending_at();
        let (base, end) = (self.state.match_base as int, self.state.scan_offset as int);
        let len = self.state.haystack@.len() as int;
        let ones = bits::bits128_of(self.match_bits);
        bits::lemma_positions_split(p, base, end, len);
        bits::lemma_positions_agree(
            p,
            search::hits(self.finder@, self.state.haystack@),
            end,
            len,
        );
        bits::lemma_positions_split(ones, 0, end - base, 128);
        bits::lemma_positions_none(ones, end - base, 128);
        bits::lemma_count_shift(p, ones, base, 0, end - base);
    }

    /// Without bits, the pending offsets are the matches that have not been scanned.
    proof fn lemma_no_bits(self)
        requires
            self.well_formed(),
            self.match_bits == 0,
        ensures
            self.pending() == bits::positions(
                search::hits(self.finder@, self.state.haystack@),
                self.state.scan_offset as int,
                self.state.haystack@.len() as int,
            ),
    {
        bits::lemma_wide_bits(0, 0);
        self.lemma_pending_parts();
        bits::lemma_positions_none(
            self.pending_at(),
            self.state.match_base as int,
            self.state.scan_offset as int,
        );
        assert(self.pending() =~= bits::positions(
            search::hits(self.finder@, self.state.haystack@),
            self.state.scan_offset as int,
            self.state.haystack@.len() as int,
        ));
    }

    /// Scans on for matches.
    ///
    /// Returns `None` when there are none left.
    fn refill(&mut self) -> (found: Option<()>)
        requires
            old(self).match_bits == 0,
        ensures
            final(self).finder == old(self).finder,
            final(self).state.haystack == old(self).state.haystack,
            final(self).pending() == old(self).pending(),
            found is None <==> final(self).match_bits == 0,
            found is None ==> final(self).pending().len() == 0,
            found is None ==> final(self).unscanned() == 0,
            final(self).unscanned() <= old(self).unscanned(),
            found is Some ==> final(self).unscanned() < old(self).unscanned(),
    {
        proof {
            use_type_invariant(&*self);
            self.lemma_no_bits();
        }
        if self.state.scan_offset == self.state.haystack.len() {
            return None;
        }
        let mut state = self.state;
        let match_bits: MatchedBitset = self.finder.plan().next_match_batch(&mut state);
        let refilled = Iter { finder: self.finder, state, match_bits };
        proof {
            let matching = search::hits(self.finder@, self.state.haystack@);
            let from = self.state.scan_offset as int;
            let base = state.match_base as int;
            let len = self.state.haystack@.len() as int;
            bits::lemma_positions_split(matching, from, base, len);
            bits::lemma_positions_none(matching, from, base);
            bits::lemma_positions_agree(refilled.pending_at(), matching, base, len);
            assert(refilled.pending() =~= self.pending());
            if match_bits == 0 {
                refilled.lemma_no_bits();
            }
        }
        *self = refilled;
        if match_bits != 0 {
            Some(())
        } else {
            None
        }
    }

    /// Yields the lowest match that has been found.
    fn take_lowest(&mut self) -> (lowest: usize)
        requires
            old(self).match_bits != 0,
        ensures
            final(self).finder == old(self).finder,
            final(self).state == old(self).state,
            old(self).pending().len() > 0,
            lowest == old(self).pending()[0],
            final(self).pending() == old(self).pending().drop_first(),
            lowest < old(self).state.scan_offset,
            lowest < old(self).state.haystack@.len(),
            old(self).finder@.contains(old(self).state.haystack@[lowest as int]),
    {
        proof {
            use_type_invariant(&*self);
        }
        let bit: u32 = self.match_bits.trailing_zeros();
        let lowest: usize = self.state.match_base + bit as usize;
        let ghost before = *self;
        proof {
            bits::lemma_wide_clear_lowest(self.match_bits, bit as u128);
        }
        self.match_bits = self.match_bits & (self.match_bits - 1);
        proof {
            let (p, q) = (before.pending_at(), self.pending_at());
            let base = self.state.match_base as int;
            let len = self.state.haystack@.len() as int;
            let at = lowest as int;
            bits::lemma_positions_first(p, base, at, len);
            bits::lemma_positions_split(q, base, at + 1, len);
            bits::lemma_positions_none(q, base, at + 1);
            bits::lemma_positions_agree(p, q, at + 1, len);
            assert(self.pending() =~= before.pending().drop_first());
        }
        lowest
    }
}

impl<'a> Iter<'a> {
    /// Discards remaining matches before the byte offset `idx`.
    ///
    /// The next call to [`next`](Iterator::next) yields the first remaining match
    /// at or after `idx`. An index at or before the last yielded offset has no
    /// effect, and advancing never rewinds the iterator. An index at or beyond
    /// the haystack length exhausts the iterator.
    pub fn advance_to(&mut self, idx: usize)
        ensures
            final(self).set() == old(self).set(),
            final(self).haystack() == old(self).haystack(),
            final(self).pending() == bits::from_offset(old(self).pending(), idx as int),
            final(self).unscanned() == if idx < old(self).haystack().len() - old(self).unscanned() {
                old(self).unscanned()
            } else if idx < old(self).haystack().len() {
                old(self).haystack().len() - idx
            } else {
                0
            },
    {
        proof {
            use_type_invariant(&*self);
        }
        let ghost before = *self;
        let len: usize = self.state.haystack.len();
        let ghost base = self.state.match_base as int;
        let ghost p = self.pending_at();
        if idx >= self.state.scan_offset {
            let scan_offset: usize = if idx < len {
                idx
            } else {
                len
            };
            let state = IterState {
                haystack: self.state.haystack,
                scan_offset,
                match_base: scan_offset,
            };
            proof {
                bits::lemma_wide_bits(0, 0);
            }
            *self = Iter { finder: self.finder, state, match_bits: 0 };
            proof {
                self.lemma_no_bits();
                bits::lemma_positions_from(p, base, scan_offset as int, len as int);
                bits::lemma_positions_agree(
                    p,
                    search::hits(self.finder@, self.state.haystack@),
                    scan_offset as int,
                    len as int,
                );
                if idx > len {
                    bits::lemma_positions_exact(p, base, len as int);
                    bits::lemma_filter_drops_all(before.pending(), |at: usize| at >= idx);
                    bits::lemma_filter_drops_all(before.pending(), |at: usize| at >= len);
                }
            }
        } else if idx > self.state.match_base {
            let from: usize = idx - self.state.match_base;
            proof {
                bits::lemma_wide_keep_from(self.match_bits, from as u128);
            }
            self.match_bits = self.match_bits & (MatchedBitset::MAX << from);
            proof {
                let q = self.pending_at();
                bits::lemma_positions_from(p, base, idx as int, len as int);
                bits::lemma_positions_split(q, base, idx as int, len as int);
                bits::lemma_positions_none(q, base, idx as int);
                bits::lemma_positions_agree(p, q, idx as int, len as int);
                assert(self.pending() =~= bits::positions(p, idx as int, len as int));
            }
        } else {
            proof {
                bits::lemma_positions_exact(p, base, len as int);
                bits::lemma_filter_keeps_all(before.pending(), |at: usize| at >= idx);
            }
        }
    }

    /// Matches that are held have bits.
    proof fn lemma_held(self)
        requires
            self.held() > 0,
        ensures
            self.match_bits != 0,
    {
        if self.match_bits == 0 {
            bits::lemma_wide_bits(0, 0);
            bits::lemma_positions_none(bits::bits128_of(0), 0, 128);
        }
    }
}

impl<'a> Clone for Iter<'a> {
    /// A walk that goes on from the same place.
    fn clone(&self) -> (copy: Iter<'a>)
        ensures
            copy == *self,
    {
        proof {
            use_type_invariant(self);
        }
        Iter { finder: self.finder, state: self.state, match_bits: self.match_bits }
    }
}

impl<'a> Iterator for Iter<'a> {
    type Item = usize;

    /// Yields the next match.
    fn next(&mut self) -> (found: Option<usize>)
        ensures
            final(self).set() == old(self).set(),
            final(self).haystack() == old(self).haystack(),
            found == if old(self).pending().len() > 0 {
                Some(old(self).pending()[0])
            } else {
                None
            },
            final(self).pending() == if old(self).pending().len() > 0 {
                old(self).pending().drop_first()
            } else {
                Seq::empty()
            },
            found matches Some(at) ==> at < old(self).haystack().len() && old(
                self,
            ).set().contains(old(self).haystack()[at as int]),
            final(self).unscanned() <= old(self).unscanned(),
            found matches Some(at) ==> at < old(self).haystack().len() - final(self).unscanned(),
            found is None ==> final(self).unscanned() == 0,
            old(self).held() > 0 ==> final(self).unscanned() == old(self).unscanned(),
    {
        proof {
            use_type_invariant(&*self);
            if self.held() > 0 {
                self.lemma_held();
            }
        }
        if self.match_bits == 0 {
            if self.refill().is_none() {
                assert(self.pending() =~= Seq::empty());
                return None;
            }
        }
        Some(self.take_lowest())
    }

    /// Bounds on the number of remaining matches: those found already, and one more for every
    /// byte that has not been scanned.
    fn size_hint(&self) -> (hint: (usize, Option<usize>))
        ensures
            hint.0 == self.held(),
            hint.1 == if self.held() + self.unscanned() <= usize::MAX {
                Some((self.held() + self.unscanned()) as usize)
            } else {
                None
            },
            hint.0 <= self.pending().len(),
            hint.1 matches Some(most) && self.pending().len() <= most <= self.haystack().len(),
            0 <= self.unscanned() <= self.haystack().len(),
            forall|k: int|
                0 <= k < self.pending().len() ==> (k < hint.0 <==> #[trigger] self.pending()[k]
                    < self.haystack().len() - self.unscanned()),
    {
        let len: usize = self.state.haystack.len();
        proof {
            use_type_invariant(self);
            self.lemma_pending_parts();
            bits::lemma_count_full(
                search::hits(self.finder@, self.state.haystack@),
                self.state.scan_offset as int,
                len as int,
            );
            bits::lemma_count_full(
                self.pending_at(),
                self.state.match_base as int,
                self.state.scan_offset as int,
            );
            bits::lemma_positions_exact(
                self.pending_at(),
                self.state.match_base as int,
                self.state.scan_offset as int,
            );
            bits::lemma_positions_exact(
                search::hits(self.finder@, self.state.haystack@),
                self.state.scan_offset as int,
                len as int,
            );
        }
        let least: usize = self.match_bits.count_ones() as usize;
        let most = least.checked_add(len - self.state.scan_offset);
        (least, most)
    }

    /// Counts the remaining matches.
    fn count(self) -> (total: usize)
        ensures
            total == self.pending().len(),
    {
        proof {
            use_type_invariant(&self);
            self.lemma_pending_parts();
        }
        let mut total: usize = self.match_bits.count_ones() as usize;
        let len: usize = self.state.haystack.len();
        if self.state.scan_offset < len {
            let unscanned = slice_subrange(self.state.haystack, self.state.scan_offset, len);
            proof {
                let matching = search::hits(self.finder@, self.state.haystack@);
                let from = self.state.scan_offset as int;
                bits::lemma_count_shift(
                    matching,
                    search::hits(self.finder@, unscanned@),
                    from,
                    0,
                    len - from,
                );
                bits::lemma_positions_exact(
                    self.pending_at(),
                    self.state.match_base as int,
                    len as int,
                );
            }
            total += self.finder.plan().count_all(unscanned);
        }
        total
    }

    /// Skips `n` matches and yields the one after them.
    fn nth(&mut self, n: usize) -> (found: Option<usize>)
        ensures
            final(self).set() == old(self).set(),
            final(self).haystack() == old(self).haystack(),
            found == if n < old(self).pending().len() {
                Some(old(self).pending()[n as int])
            } else {
                None
            },
            final(self).pending() == if n < old(self).pending().len() {
                old(self).pending().skip(n + 1)
            } else {
                Seq::empty()
            },
            found matches Some(at) ==> at < old(self).haystack().len() && old(
                self,
            ).set().contains(old(self).haystack()[at as int]),
            final(self).unscanned() <= old(self).unscanned(),
            found matches Some(at) ==> at < old(self).haystack().len() - final(self).unscanned(),
            found is None ==> final(self).unscanned() == 0,
            old(self).held() > n ==> final(self).unscanned() == old(self).unscanned(),
    {
        let ghost all = self.pending();
        let mut remaining: usize = n;
        assert(all.skip(0) =~= all);
        loop
            invariant_except_break
                remaining <= n,
                n - remaining <= all.len(),
                self.pending() == all.skip(n - remaining),
            invariant
                all == old(self).pending(),
                self.finder == old(self).finder,
                self.state.haystack == old(self).state.haystack,
                self.unscanned() <= old(self).unscanned(),
                old(self).held() > n ==> self.state == old(self).state && remaining == n
                    && self.held() == old(self).held(),
            ensures
                remaining <= n,
                n - remaining <= all.len(),
                self.pending() == all.skip(n - remaining),
                self.held() > remaining,
            decreases self.unscanned(),
        {
            proof {
                use_type_invariant(&*self);
                self.lemma_pending_parts();
            }
            let held: usize = self.match_bits.count_ones() as usize;
            if held > remaining {
                break ;
            }
            let ghost before = *self;
            remaining -= held;
            proof {
                bits::lemma_wide_bits(0, 0);
            }
            self.match_bits = 0;
            proof {
                self.lemma_no_bits();
                assert(self.pending() =~= before.pending().skip(held as int));
                assert(self.pending() =~= all.skip(n - remaining));
            }
            if self.refill().is_none() {
                assert(self.pending() =~= Seq::empty());
                return None;
            }
            proof {
                use_type_invariant(&*self);
            }
        }
        while remaining > 0
            invariant
                remaining <= n,
                n - remaining <= all.len(),
                self.pending() == all.skip(n - remaining),
                self.held() > remaining,
                all == old(self).pending(),
                self.finder == old(self).finder,
                self.state.haystack == old(self).state.haystack,
                self.unscanned() <= old(self).unscanned(),
                old(self).held() > n ==> self.state == old(self).state,
            decreases remaining,
        {
            proof {
                use_type_invariant(&*self);
                self.lemma_held();
            }
            let ghost before = *self;
            self.take_lowest();
            proof {
                use_type_invariant(&*self);
                before.lemma_pending_parts();
                self.lemma_pending_parts();
                assert(before.pending().drop_first() =~= all.skip(n - remaining + 1));
            }
            remaining -= 1;
        }
        proof {
            use_type_invariant(&*self);
            self.lemma_held();
            self.lemma_pending_parts();
            assert(all.skip(n as int).drop_first() =~= all.skip(n + 1));
        }
        Some(self.take_lowest())
    }
}

impl<'a> core::iter::FusedIterator for Iter<'a> {

}

impl<'a> vstd::std_specs::iter::IteratorSpecImpl for Iter<'a> {
    open spec fn obeys_prophetic_iter_laws(&self) -> bool {
        true
    }

    open spec fn remaining(&self) -> Seq<usize> {
        self.pending()
    }

    open spec fn will_return_none(&self) -> bool {
        true
    }

    open spec fn decrease(&self) -> Option<nat> {
        Some(self.pending().len())
    }

    open spec fn initial_value_relation(&self, init: &Iter<'a>) -> bool {
        init.pending() == self.pending()
    }

    open spec fn peek(&self, index: int) -> Option<usize> {
        if 0 <= index < self.pending().len() {
            Some(self.pending()[index])
        } else {
            None
        }
    }
}

} // verus!
