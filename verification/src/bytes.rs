//! Sets of bytes that are collected one at a time.

use crate::bitset;
use crate::bitset::{ByteRange, ByteSet};
use crate::engine;
use crate::engine::{Backend, Engine};
use crate::kind;
use crate::kind::{group_items, Kind, MEMBERS_MAX, SMALL_SET_MAX};
use crate::memchr;
use crate::memchr::MemchrN;
use crate::nibbles;
use crate::nibbles::extract_fixed_nibble_table;
use core::ops::RangeInclusive;
use vstd::array::array_as_slice;
use vstd::prelude::*;
use vstd::set_lib::*;
use vstd::slice::*;
use vstd::std_specs::iter::*;

verus! {

/// The most bytes that are listed one by one.
pub const ARRAY_MAX: usize = 24;

/// A set of bytes that is collected one at a time.
#[derive(Debug, Copy, Clone)]
pub struct Bytes(BytesRepr);

/// How the bytes are held.
#[derive(Debug, Copy, Clone)]
enum BytesRepr {
    /// The first `count` bytes of `arr`, in the order in which they were added.
    Array { count: u8, arr: [u8; ARRAY_MAX] },
    /// A range of bytes, too many to list.
    Range(ByteRange),
    /// A table of bytes, too many to list.
    Bitset(ByteSet),
}

/// The ways in which collected bytes are held.
#[verifier::ext_equal]
pub enum Form {
    /// One by one, in the order in which they were added.
    List(Seq<u8>),
    /// As a range.
    Range(ByteRange),
    /// In a table.
    Table(Set<u8>),
}

impl Form {
    /// The bytes that are held.
    pub open spec fn members(self) -> Set<u8> {
        match self {
            Form::List(list) => list.to_set(),
            Form::Range(range) => range@,
            Form::Table(set) => set,
        }
    }

    /// Whether bytes can be held so: listed bytes are distinct, and bytes are held as a range or in
    /// a table only when there are too many to list.
    pub open spec fn valid(self) -> bool {
        match self {
            Form::List(list) => list.len() <= ARRAY_MAX && list.no_duplicates(),
            Form::Range(range) => range.last - range.start >= ARRAY_MAX,
            Form::Table(set) => set.len() > ARRAY_MAX,
        }
    }

    /// The bytes in the order in which they were added, while they are few enough to list.
    pub open spec fn listed(self) -> Option<Seq<u8>> {
        match self {
            Form::List(list) => Some(list),
            _ => None,
        }
    }

    /// How the bytes are held once `item` has been added.
    ///
    /// A byte that is held already changes nothing. When a list is full, its bytes go into a range
    /// if they fill one together with the new byte, and into a table if not. A range takes in the
    /// bytes next to it; any other byte turns it into a table, which nothing turns back.
    pub open spec fn with_item(self, item: u8) -> Form {
        match self {
            Form::List(list) => if list.contains(item) {
                self
            } else if list.len() < ARRAY_MAX {
                Form::List(list.push(item))
            } else {
                let set = list.to_set().insert(item);
                if bitset::is_range(set) {
                    Form::Range(bitset::range_of(set))
                } else {
                    Form::Table(set)
                }
            },
            Form::Range(range) => if range@.contains(item) {
                self
            } else if item == range.start - 1 {
                Form::Range(ByteRange { start: item, last: range.last })
            } else if item == range.last + 1 {
                Form::Range(ByteRange { start: range.start, last: item })
            } else {
                Form::Table(range@.insert(item))
            },
            Form::Table(set) => Form::Table(set.insert(item)),
        }
    }

    /// How the bytes are held once `items` have been added one by one.
    pub open spec fn with_items(self, items: Seq<u8>) -> Form
        decreases items.len(),
    {
        if items.len() == 0 {
            self
        } else {
            self.with_items(items.drop_last()).with_item(items.last())
        }
    }

    /// How the bytes are held once the bytes of `added` have been added.
    ///
    /// To a list they are added one by one. A range is joined with one that it overlaps or touches.
    pub open spec fn with_range(self, added: ByteRange) -> Form {
        if added.start > added.last {
            self
        } else {
            match self {
                Form::List(_) => self.with_items(range_items(added)),
                Form::Range(range) => if added.start <= range.last + 1 && range.start <= added.last
                    + 1 {
                    Form::Range(
                        ByteRange {
                            start: if added.start < range.start {
                                added.start
                            } else {
                                range.start
                            },
                            last: if added.last > range.last {
                                added.last
                            } else {
                                range.last
                            },
                        },
                    )
                } else {
                    Form::Table(range@.union(added@))
                },
                Form::Table(set) => Form::Table(set.union(added@)),
            }
        }
    }
}

impl View for Bytes {
    type V = Set<u8>;

    open spec fn view(&self) -> Set<u8> {
        self.form().members()
    }
}

/// The list of bytes with `item` added to its end, unless the list has it already; there is no
/// list of more than [`ARRAY_MAX`] bytes.
pub open spec fn with_item(listed: Option<Seq<u8>>, item: u8) -> Option<Seq<u8>> {
    match listed {
        Some(list) => if list.contains(item) {
            Some(list)
        } else if list.len() < ARRAY_MAX {
            Some(list.push(item))
        } else {
            None
        },
        None => None,
    }
}

/// The list of bytes with `items` added one by one.
pub open spec fn with_items(listed: Option<Seq<u8>>, items: Seq<u8>) -> Option<Seq<u8>>
    decreases items.len(),
{
    if items.len() == 0 {
        listed
    } else {
        with_item(with_items(listed, items.drop_last()), items.last())
    }
}

/// The bytes of a range in ascending order.
pub open spec fn range_items(range: ByteRange) -> Seq<u8> {
    if range.start <= range.last {
        Seq::new((range.last - range.start + 1) as nat, |i: int| (range.start + i) as u8)
    } else {
        Seq::empty()
    }
}

/// Bytes that are not listed stay so.
proof fn lemma_unlisted(items: Seq<u8>)
    ensures
        with_items(None, items) is None,
    decreases items.len(),
{
    if items.len() > 0 {
        lemma_unlisted(items.drop_last());
    }
}

/// The set of a sequence with one more item.
proof fn lemma_insert_item(items: Seq<u8>, item: u8)
    requires
        items.no_duplicates(),
    ensures
        items.to_set().len() == items.len(),
        items.to_set().insert(item) == items.push(item).to_set(),
        !items.contains(item) ==> items.push(item).no_duplicates(),
        items.contains(item) ==> items.to_set().insert(item) == items.to_set(),
{
    items.unique_seq_to_set();
    bitset::lemma_push_to_set(items, item);
    if items.contains(item) {
        assert(items.to_set().insert(item) =~= items.to_set());
    }
}

/// The bytes of a range, listed, are its members.
pub proof fn lemma_range_items(range: ByteRange)
    ensures
        range_items(range).to_set() == range@,
{
    let items = range_items(range);
    assert forall|byte: u8| items.to_set().contains(byte) == range@.contains(byte) by {
        if range@.contains(byte) {
            assert(items[byte - range.start] == byte);
        }
    }
    assert(items.to_set() =~= range@);
}

/// What adding a byte does to the bytes that are held.
pub proof fn lemma_with_item(form: Form, item: u8)
    requires
        form.valid(),
    ensures
        form.with_item(item).valid(),
        form.with_item(item).members() == form.members().insert(item),
        form.with_item(item).listed() == with_item(form.listed(), item),
        form.members().contains(item) ==> form.with_item(item) == form,
{
    match form {
        Form::List(list) => {
            lemma_insert_item(list, item);
            if !list.contains(item) && list.len() == ARRAY_MAX {
                let set = list.to_set().insert(item);
                list.push(item).unique_seq_to_set();
                if bitset::is_range(set) {
                    bitset::lemma_range_len(bitset::range_of(set), set);
                }
            }
        },
        Form::Range(range) => {
            bitset::lemma_range_len(range, range@.insert(item));
            assert(form.with_item(item).members() =~= range@.insert(item));
        },
        Form::Table(set) => {
            bitset::lemma_set_len(set.insert(item));
            lemma_len_subset(set, set.insert(item));
            if set.contains(item) {
                assert(set.insert(item) =~= set);
            }
        },
    }
}

/// What adding bytes one by one does to the bytes that are held.
pub proof fn lemma_with_items(form: Form, items: Seq<u8>)
    requires
        form.valid(),
    ensures
        form.with_items(items).valid(),
        form.with_items(items).members() == form.members().union(items.to_set()),
        form.with_items(items).listed() == with_items(form.listed(), items),
        items.to_set().subset_of(form.members()) ==> form.with_items(items) == form,
    decreases items.len(),
{
    if items.len() == 0 {
        assert(form.members().union(items.to_set()) =~= form.members());
    } else {
        let (before, item) = (items.drop_last(), items.last());
        assert(items =~= before.push(item));
        bitset::lemma_push_to_set(before, item);
        lemma_with_items(form, before);
        lemma_with_item(form.with_items(before), item);
        assert(form.members().union(items.to_set()) =~= form.members().union(
            before.to_set(),
        ).insert(item));
        if items.to_set().subset_of(form.members()) {
            assert(items.to_set().contains(item));
        }
    }
}

/// What adding a range does to the bytes that are held.
pub proof fn lemma_with_range(form: Form, added: ByteRange)
    requires
        form.valid(),
    ensures
        form.with_range(added).valid(),
        form.with_range(added).members() == form.members().union(added@),
        form.with_range(added).listed() == with_items(form.listed(), range_items(added)),
        added@.subset_of(form.members()) ==> form.with_range(added) == form,
{
    lemma_unlisted(range_items(added));
    if added.start > added.last {
        assert(form.members().union(added@) =~= form.members());
    } else {
        match form {
            Form::List(_) => {
                lemma_range_items(added);
                lemma_with_items(form, range_items(added));
            },
            Form::Range(range) => {
                bitset::lemma_range_len(range, range@.union(added@));
                assert(form.with_range(added).members() =~= range@.union(added@));
                if added@.subset_of(range@) {
                    assert(added@.contains(added.start) && added@.contains(added.last));
                }
            },
            Form::Table(set) => {
                bitset::lemma_set_len(set.union(added@));
                lemma_len_subset(set, set.union(added@));
                if added@.subset_of(set) {
                    assert(set.union(added@) =~= set);
                }
            },
        }
    }
}

/// Turns distinct items into the range that they fill, if they fill one.
fn disjoint_slice_to_range(arr: &[u8]) -> (range: Option<ByteRange>)
    requires
        arr@.no_duplicates(),
    ensures
        range is Some <==> bitset::is_range(arr@.to_set()),
        range matches Some(range) ==> range.start <= range.last && range@ == arr@.to_set(),
{
    if arr.len() == 0 {
        proof {
            if bitset::is_range(arr@.to_set()) {
                let range = choose|range: ByteRange|
                    range.start <= range.last && arr@.to_set() == #[trigger] range@;
                assert(range@.contains(range.start));
                assert(arr@.contains(range.start));
            }
        }
        return None;
    }
    let first: u8 = arr[0];
    let rest = slice_subrange(arr, 1, arr.len());
    proof {
        assert(arr@ =~= seq![first] + rest@);
        assert(!rest@.contains(first)) by {
            if rest@.contains(first) {
                let k = rest@.index_of(first);
                assert(arr@[k + 1] == arr@[0]);
            }
        }
        assert forall|i: int, j: int| 0 <= i < rest@.len() && 0 <= j < rest@.len() && i != j implies
            rest@[i] != rest@[j] by {
            assert(rest@[i] == arr@[i + 1] && rest@[j] == arr@[j + 1]);
        }
        assert forall|byte: u8| arr@.to_set().contains(byte) == rest@.to_set().insert(
            first,
        ).contains(byte) by {
            if rest@.contains(byte) {
                let k = rest@.index_of(byte);
                assert(arr@[k + 1] == byte);
            }
            if arr@.contains(byte) && byte != first {
                let k = arr@.index_of(byte);
                assert(rest@[k - 1] == byte);
            }
        }
        assert(arr@.to_set() =~= rest@.to_set().insert(first));
    }
    disjoint_items_to_range(first, rest)
}

/// Turns distinct items, of which the first is given apart, into the range that they fill, if they
/// fill one.
fn disjoint_items_to_range(first_item: u8, arr: &[u8]) -> (range: Option<ByteRange>)
    requires
        arr@.no_duplicates(),
        !arr@.contains(first_item),
    ensures
        range is Some <==> bitset::is_range(arr@.to_set().insert(first_item)),
        range matches Some(range) ==> range.start <= range.last && range@ == arr@.to_set().insert(
            first_item,
        ),
{
    let ghost set = arr@.to_set().insert(first_item);
    let mut min: u8 = first_item;
    let mut max: u8 = first_item;
    let len: usize = arr.len();
    let mut i: usize = 0;
    while i < len
        invariant
            i <= len == arr@.len(),
            min <= first_item <= max,
            min == first_item || arr@.contains(min),
            max == first_item || arr@.contains(max),
            forall|j: int| 0 <= j < i ==> min <= #[trigger] arr@[j] <= max,
        decreases len - i,
    {
        let item: u8 = arr[i];
        assert(arr@.contains(item));
        if item < min {
            min = item;
        }
        if item > max {
            max = item;
        }
        i += 1;
    }
    proof {
        lemma_insert_item(arr@, first_item);
        arr@.push(first_item).unique_seq_to_set();
        assert(set.len() == len + 1);
        bitset::lemma_contiguous(set);
        bitset::lemma_members_exact(set);
        let members = bitset::members_of(set);
        assert(set.contains(min) && set.contains(max));
        assert forall|byte: u8| set.contains(byte) implies min <= byte <= max by {
            if byte != first_item {
                let k = arr@.index_of(byte);
                assert(arr@[k] == byte);
            }
        }
        let (a, b) = (members.index_of(min), members.index_of(max));
        assert(members.contains(min) && members.contains(max));
        assert(members[0] <= members[a] && members[b] <= members.last());
        assert(set.contains(members[0]) && set.contains(members.last()));
    }
    // Since all items are unique, this is a contiguous range if the distance between min and max
    // is equal to the number of items - 1.
    if (max - min) as usize == len {
        Some(ByteRange { start: min, last: max })
    } else {
        None
    }
}

impl Bytes {
    /// How the bytes are held.
    pub closed spec fn form(self) -> Form {
        match self.0 {
            BytesRepr::Array { count, arr } => Form::List(arr@.take(count as int)),
            BytesRepr::Range(range) => Form::Range(range),
            BytesRepr::Bitset(bitset) => Form::Table(bitset@),
        }
    }

    /// The bytes are held in a way in which they can be.
    #[verifier::type_invariant]
    spec fn well_formed(self) -> bool {
        &&& self.form().valid()
        &&& self.0 matches BytesRepr::Array { count, arr } ==> count <= 24
    }

    /// The bytes in the order in which they were added, while they are few enough to list.
    pub open spec fn listed(self) -> Option<Seq<u8>> {
        self.form().listed()
    }

    /// Creates a set with no members.
    pub fn new() -> (bytes: Bytes)
        ensures
            bytes@ == Set::<u8>::empty(),
            bytes.form() == Form::List(Seq::empty()),
    {
        let arr: [u8; ARRAY_MAX] = [0; ARRAY_MAX];
        assert(arr@.take(0) =~= Seq::<u8>::empty());
        let bytes = Bytes(BytesRepr::Array { count: 0, arr });
        assert(bytes@ =~= Set::<u8>::empty());
        bytes
    }

    /// Creates a set of the distinct values in `bytes`.
    pub fn from_bytes(bytes: &[u8]) -> (set: Bytes)
        ensures
            set@ == bytes@.to_set(),
            set.form() == Form::List(Seq::empty()).with_items(bytes@),
            set.form().valid(),
            set.listed() == with_items(Some(Seq::empty()), bytes@),
    {
        let mut set = Bytes::new();
        let ghost empty = Form::List(Seq::empty());
        let len: usize = bytes.len();
        let mut i: usize = 0;
        while i < len
            invariant
                i <= len == bytes@.len(),
                set.form() == empty.with_items(bytes@.take(i as int)),
            decreases len - i,
        {
            set.add(bytes[i]);
            proof {
                assert(bytes@.take(i + 1).drop_last() =~= bytes@.take(i as int));
            }
            i += 1;
        }
        proof {
            assert(bytes@.take(len as int) =~= bytes@);
            lemma_with_items(empty, bytes@);
            assert(empty.members().union(bytes@.to_set()) =~= bytes@.to_set());
        }
        set
    }

    /// Creates a set of the bytes in an inclusive range.
    ///
    /// A range whose start is past its end gives the empty set. Of a range that has been iterated
    /// to its end, some range of bytes is taken.
    pub fn from_range(range: RangeInclusive<u8>) -> (set: Bytes)
        ensures
            !range@.exhausted ==> ({
                let bounds = ByteRange { start: range@.start, last: range@.end };
                &&& set@ == bounds@
                &&& set.form() == Form::List(Seq::empty()).with_range(bounds)
            }),
            exists|bounds: ByteRange|
                set@ == #[trigger] bounds@ && set.form() == Form::List(Seq::empty()).with_range(
                    bounds,
                ),
            set.form().valid(),
    {
        let mut set = Bytes::new();
        let bounds = ByteRange { start: *range.start(), last: *range.end() };
        set.add_range(bounds);
        assert(set@ =~= bounds@);
        set
    }

    /// Adds a byte.
    ///
    /// Adding a byte that is a member changes nothing.
    pub fn add(&mut self, item: u8)
        ensures
            final(self)@ == old(self)@.insert(item),
            final(self).form() == old(self).form().with_item(item),
            final(self).form().valid(),
            final(self).listed() == with_item(old(self).listed(), item),
            old(self)@.contains(item) ==> *final(self) == *old(self),
    {
        proof {
            use_type_invariant(&*self);
            lemma_with_item(self.form(), item);
        }
        match self.0 {
            BytesRepr::Array { count, arr } => {
                let len: usize = count as usize;
                let ghost listed = arr@.take(len as int);
                // Not worth keeping sorted/binary searching vs linear search on 24 items
                let mut i: usize = 0;
                while i < len
                    invariant
                        i <= len <= 24,
                        listed == arr@.take(len as int),
                        forall|j: int| 0 <= j < i ==> #[trigger] arr@[j] != item,
                        *self == *old(self),
                        self.form() == Form::List(listed),
                        self.form().with_item(item).valid(),
                        self.form().with_item(item).members() == self@.insert(item),
                        self.form().with_item(item).listed() == with_item(self.listed(), item),
                    decreases len - i,
                {
                    if arr[i] == item {
                        assert(listed[i as int] == item);
                        return ;
                    }
                    i += 1;
                }
                assert(!listed.contains(item));
                if len < ARRAY_MAX {
                    let mut grown = arr;
                    grown[len] = item;
                    assert(grown@.take(len + 1) =~= listed.push(item));
                    *self = Bytes(BytesRepr::Array { count: count + 1, arr: grown });
                } else {
                    let items = array_as_slice(&arr);
                    assert(items@ =~= listed);
                    match disjoint_items_to_range(item, items) {
                        Some(range) => {
                            proof {
                                bitset::lemma_range_of(range);
                            }
                            *self = Bytes(BytesRepr::Range(range));
                        },
                        None => {
                            let mut bitset = ByteSet::from_bytes(items);
                            bitset.add(item);
                            *self = Bytes(BytesRepr::Bitset(bitset));
                        },
                    }
                }
            },
            BytesRepr::Range(range) => {
                if range.start > 0 && range.start - 1 == item {
                    *self = Bytes(BytesRepr::Range(ByteRange { start: item, last: range.last }));
                } else if range.last < 255 && range.last + 1 == item {
                    *self = Bytes(BytesRepr::Range(ByteRange { start: range.start, last: item }));
                } else if item < range.start || item > range.last {
                    let mut bitset = ByteSet::new();
                    bitset.add_byte_range(range);
                    bitset.add(item);
                    assert(bitset@ =~= range@.insert(item));
                    *self = Bytes(BytesRepr::Bitset(bitset));
                }
            },
            BytesRepr::Bitset(bitset) => {
                let mut grown = bitset;
                grown.add(item);
                proof {
                    if bitset@.contains(item) {
                        grown.lemma_same_members(bitset);
                    }
                }
                *self = Bytes(BytesRepr::Bitset(grown));
            },
        }
    }

    /// Adds every byte from `range.start` through `range.last`, inclusive.
    ///
    /// An empty range (one whose `start` is past its `last`) adds nothing. Adding bytes that are
    /// all members changes nothing.
    pub fn add_range(&mut self, range: ByteRange)
        ensures
            final(self)@ == old(self)@.union(range@),
            final(self).form() == old(self).form().with_range(range),
            final(self).form().valid(),
            final(self).listed() == with_items(old(self).listed(), range_items(range)),
            range@.subset_of(old(self)@) ==> *final(self) == *old(self),
    {
        proof {
            use_type_invariant(&*self);
            lemma_with_range(self.form(), range);
        }
        let ByteRange { start, last } = range;
        if start > last {
            return ;
        }
        match self.0 {
            // One at a time, so a range small enough to stay in the array keeps the
            // representations only the array can reach.
            BytesRepr::Array { .. } => {
                let mut item: u8 = start;
                let ghost items = range_items(range);
                assert(items.take(0) =~= Seq::<u8>::empty());
                loop
                    invariant
                        start <= item <= last,
                        range == (ByteRange { start, last }),
                        items == range_items(range),
                        self.form() == old(self).form().with_items(items.take(item - start)),
                        range@.subset_of(old(self)@) ==> *self == *old(self),
                        old(self).form() is List,
                        old(self).form().with_range(range).valid(),
                        old(self).form().with_range(range).members() == old(self)@.union(range@),
                        old(self).form().with_range(range).listed() == with_items(
                            old(self).listed(),
                            items,
                        ),
                    decreases last - item,
                {
                    assert(range@.contains(item));
                    self.add(item);
                    proof {
                        let n = item - start;
                        assert(items.take(n + 1).drop_last() =~= items.take(n));
                        assert(items.take(n + 1).last() == item);
                    }
                    if item == last {
                        assert(items.take(item - start + 1) =~= items);
                        return ;
                    }
                    item += 1;
                }
            },
            BytesRepr::Range(existing) => {
                // Two ranges stay one range only if they overlap or touch.
                if start as u16 <= existing.last as u16 + 1 && existing.start as u16 <= last as u16
                    + 1 {
                    let joined = ByteRange {
                        start: if start < existing.start {
                            start
                        } else {
                            existing.start
                        },
                        last: if last > existing.last {
                            last
                        } else {
                            existing.last
                        },
                    };
                    *self = Bytes(BytesRepr::Range(joined));
                } else {
                    let mut bitset = ByteSet::new();
                    bitset.add_byte_range(existing);
                    bitset.add_byte_range(range);
                    assert(bitset@ =~= existing@.union(range@));
                    *self = Bytes(BytesRepr::Bitset(bitset));
                }
            },
            BytesRepr::Bitset(bitset) => {
                let mut grown = bitset;
                grown.add_byte_range(range);
                proof {
                    if range@.subset_of(bitset@) {
                        assert(grown@ =~= bitset@);
                        grown.lemma_same_members(bitset);
                    }
                }
                *self = Bytes(BytesRepr::Bitset(grown));
            },
        }
    }
}

impl Default for Bytes {
    /// The set with no members.
    fn default() -> (bytes: Bytes)
        ensures
            bytes@ == Set::<u8>::empty(),
            bytes.form() == Form::List(Seq::empty()),
    {
        Bytes::new()
    }
}

/// The members in the order in which they are known: as they were added while they are listed,
/// ascending otherwise.
pub open spec fn known_order(bytes: Bytes) -> Seq<u8> {
    match bytes.listed() {
        Some(listed) => listed,
        None => bitset::members_of(bytes@),
    }
}

impl Bytes {
    /// Adds every byte that `iter` yields.
    pub fn extend<I: Iterator<Item = u8>>(&mut self, iter: I)
        requires
            iter.obeys_prophetic_iter_laws(),
            iter.decrease() is Some,
        ensures
            final(self)@ == old(self)@.union(iter.remaining().to_set()),
            final(self).form() == old(self).form().with_items(iter.remaining()),
            final(self).form().valid(),
            final(self).listed() == with_items(old(self).listed(), iter.remaining()),
            iter.remaining().to_set().subset_of(old(self)@) ==> *final(self) == *old(self),
    {
        let mut iter = iter;
        let ghost all = iter.remaining();
        let ghost mut seen: Seq<u8> = Seq::empty();
        assert(seen + iter.remaining() =~= all);
        proof {
            use_type_invariant(&*self);
            lemma_with_items(self.form(), all);
        }
        loop
            invariant_except_break
                seen + iter.remaining() == all,
            invariant
                iter.obeys_prophetic_iter_laws(),
                iter.decrease() is Some,
                self.form() == old(self).form().with_items(seen),
                all.to_set().subset_of(old(self)@) ==> *self == *old(self),
            ensures
                seen == all,
            decreases iter.decrease()->0,
        {
            let ghost rest = iter.remaining();
            match iter.next() {
                Some(byte) => {
                    self.add(byte);
                    proof {
                        assert(seen.push(byte) + rest.drop_first() =~= all);
                        assert(seen.push(byte).drop_last() =~= seen);
                        assert(all[seen.len() as int] == byte);
                        assert(all.to_set().contains(byte));
                        seen = seen.push(byte);
                    }
                },
                None => {
                    assert(seen =~= all);
                    break ;
                },
            }
        }
    }

    /// Creates a set of the distinct bytes that `iter` yields.
    pub fn from_iter<I: Iterator<Item = u8>>(iter: I) -> (set: Bytes)
        requires
            iter.obeys_prophetic_iter_laws(),
            iter.decrease() is Some,
        ensures
            set@ == iter.remaining().to_set(),
            set.form() == Form::List(Seq::empty()).with_items(iter.remaining()),
            set.form().valid(),
            set.listed() == with_items(Some(Seq::empty()), iter.remaining()),
    {
        let mut set = Bytes::new();
        set.extend(iter);
        assert(set@ =~= iter.remaining().to_set());
        set
    }

    /// Picks the kind that matches this set most cheaply.
    ///
    /// `fast_shuffles` gates the kinds a kernel can only scan by shuffling bytes within a
    /// vector: unset for a target whose shuffles are slow, and for the word kernels, which
    /// have none.
    pub fn kind(&self, fast_shuffles: bool) -> (kind: Kind)
        ensures
            kind::is_cheapest(kind, self@, known_order(*self), fast_shuffles),
    {
        proof {
            use_type_invariant(self);
            bitset::lemma_set_len(self@);
        }
        match self.0 {
            BytesRepr::Array { count, arr } => {
                let count: usize = count as usize;
                let items = slice_subrange(array_as_slice(&arr), 0, count);
                let ghost listed = arr@.take(count as int);
                proof {
                    assert(items@ =~= listed);
                    listed.unique_seq_to_set();
                }
                if count == 0 {
                    assert(self@ =~= Set::<u8>::empty());
                    return Kind::Never;
                }
                if count == 1 {
                    assert(listed =~= seq![arr@[0]]);
                    assert forall|byte: u8| self@.contains(byte) == (byte == arr@[0]) by {
                        assert(listed.contains(listed[0]));
                    }
                    assert(self@ =~= set![arr@[0]]);
                    return Kind::OneByte(arr[0]);
                }
                if count == 2 {
                    let pair: [u8; 2] = [arr[0], arr[1]];
                    assert(pair@ =~= listed);
                    return Kind::TwoBytes(pair);
                }
                if count == 3 {
                    let three: [u8; 3] = [arr[0], arr[1], arr[2]];
                    assert(three@ =~= listed);
                    return Kind::ThreeBytes(three);
                }
                if let Some(range) = disjoint_slice_to_range(items) {
                    return Kind::OneRange(range);
                }
                if fast_shuffles && count <= SMALL_SET_MAX {
                    let (lo_lookup, hi_lookup) = group_items(items);
                    return Kind::SmallSet { lo_lookup, hi_lookup };
                }
                proof {
                    bitset::lemma_members_exact(self@);
                    bitset::lemma_members_set(self@);
                    nibbles::lemma_shares_same(listed, bitset::members_of(self@));
                }
                if fast_shuffles && count <= MEMBERS_MAX {
                    if let Some(table) = extract_fixed_nibble_table(items) {
                        return Kind::ConstantNibble(table);
                    }
                }
                Kind::AnyByte(ByteSet::from_bytes(items))
            },
            BytesRepr::Range(range) => {
                proof {
                    bitset::lemma_range_len(range, range@);
                    assert(bitset::is_range(self@));
                }
                Kind::OneRange(range)
            },
            BytesRepr::Bitset(bitset) => {
                match bitset.as_contiguous_range() {
                    Some(range) => {
                        assert(bitset::is_range(self@));
                        Kind::OneRange(range)
                    },
                    None => {
                        assert(!bitset::is_range(self@));
                        Kind::AnyByte(bitset)
                    },
                }
            },
        }
    }
}

/// Whether `finder` searches for `bytes` on `engine`, in the form that is cheapest there.
pub open spec fn finds_bytes(finder: MemchrN, bytes: Bytes, engine: Engine) -> bool {
    &&& finder@ == bytes@
    &&& exists|kind: Kind| #[trigger]
        kind::is_cheapest(kind, bytes@, known_order(bytes), engine.shuffling() is Vector)
            && memchr::plans_kind(finder.spec_plan(), kind, engine)
}

impl Bytes {
    /// Builds a searcher for the members using the best supported kernels.
    pub fn finder(&self) -> (finder: MemchrN)
        ensures
            exists|engine: Engine| #[trigger]
                engine::serves(Backend::Auto, engine) && finds_bytes(finder, *self, engine),
    {
        self.finder_with(Backend::Auto)
    }

    /// Builds a searcher for the members using `backend`.
    pub fn finder_with(&self, backend: Backend) -> (finder: MemchrN)
        ensures
            exists|engine: Engine| #[trigger]
                engine::serves(backend, engine) && finds_bytes(finder, *self, engine),
    {
        let engine = backend.engine();
        self.finder_on(engine)
    }

    /// Builds a searcher for the members that runs on `engine`.
    pub fn finder_on(&self, engine: Engine) -> (finder: MemchrN)
        ensures
            finds_bytes(finder, *self, engine),
    {
        // A word kernel has no shuffle to reach for, so it classifies as a vector target
        // without fast ones does.
        let fast_shuffles: bool = match engine.with_byte_shuffle() {
            Engine::Vector(_) => true,
            Engine::Swar => false,
        };
        MemchrN::from_kind(engine, self.kind(fast_shuffles))
    }
}

} // verus!
