//! Text for diagnostics.

use crate::bitset::ByteSet;
use crate::engine::Engine;
use crate::memchr::MemchrN;
use crate::plan::KernelKind;
use core::fmt;
use fearless_simd::Level;
use vstd::prelude::*;

verus! {

/// `String::push` appends a character.
pub assume_specification[ String::push ](written: &mut String, ch: char)
    ensures
        final(written)@ == old(written)@.push(ch),
;

/// `String::push_str` appends a string.
pub assume_specification[ String::push_str ](written: &mut String, more: &str)
    ensures
        final(written)@ == old(written)@ + more@,
;

/// How a level is written.
pub open spec fn level_text(level: Level) -> Seq<char> {
    match level {
        Level::Avx512(_) => "Avx512(Avx512 { _private: () })"@,
        Level::Avx2(_) => "Avx2(Avx2 { _private: () })"@,
        Level::Sse4_2(_) => "Sse4_2(Sse4_2 { _private: () })"@,
        Level::Sse2(_) => "Sse2(Sse2 { _private: () })"@,
        _ => "Fallback(Fallback { _private: () })"@,
    }
}

/// `Level` derives `Debug`, and so do the tokens in it: a level is written as the name of its
/// variant, with the name of the token and its one private field in brackets.
#[verifier::external_body]
fn describe_level(level: Level) -> (text: String)
    ensures
        text@ == level_text(level),
{
    format!("{:?}", level)
}

/// How an engine is written.
pub open spec fn engine_text(engine: Engine) -> Seq<char> {
    match engine {
        Engine::Vector(level) => "Vector("@ + level_text(level) + ")"@,
        Engine::Swar => "Swar"@,
    }
}

/// How the name of a kernel is written.
pub open spec fn kind_text(kind: KernelKind) -> Seq<char> {
    match kind {
        KernelKind::BitsetLookup => "BitsetLookup"@,
        KernelKind::SmallSet => "SmallSet"@,
        KernelKind::FixedNibble => "FixedNibble"@,
        KernelKind::OneByte => "OneByte"@,
        KernelKind::NotByte => "NotByte"@,
        KernelKind::TwoBytes => "TwoBytes"@,
        KernelKind::ThreeBytes => "ThreeBytes"@,
        KernelKind::OneRange => "OneRange"@,
        KernelKind::Never => "Never"@,
    }
}

/// How a searcher is written that runs a kernel of that `kind` on `engine`.
pub open spec fn searcher_text(engine: Engine, kind: KernelKind) -> Seq<char> {
    "MemchrN { engine: "@ + engine_text(engine) + ", kernel_kind: "@ + kind_text(kind)
        + ", .. }"@
}

/// Appends how `engine` is written.
fn write_engine(text: &mut String, engine: Engine)
    ensures
        final(text)@ == old(text)@ + engine_text(engine),
{
    match engine {
        Engine::Vector(level) => {
            text.push_str("Vector(");
            text.push_str(describe_level(level).as_str());
            text.push_str(")");
            assert(text@ =~= old(text)@ + engine_text(engine));
        },
        Engine::Swar => text.push_str("Swar"),
    }
}

/// The name of a kernel.
fn kind_name(kind: KernelKind) -> (name: &'static str)
    ensures
        name@ == kind_text(kind),
{
    match kind {
        KernelKind::BitsetLookup => "BitsetLookup",
        KernelKind::SmallSet => "SmallSet",
        KernelKind::FixedNibble => "FixedNibble",
        KernelKind::OneByte => "OneByte",
        KernelKind::NotByte => "NotByte",
        KernelKind::TwoBytes => "TwoBytes",
        KernelKind::ThreeBytes => "ThreeBytes",
        KernelKind::OneRange => "OneRange",
        KernelKind::Never => "Never",
    }
}

/// Writes a searcher that runs a kernel of that `kind` on `engine`.
pub fn describe_searcher(engine: Engine, kind: KernelKind) -> (text: String)
    ensures
        text@ == searcher_text(engine, kind),
{
    let mut text = String::new();
    text.push_str("MemchrN { engine: ");
    write_engine(&mut text, engine);
    text.push_str(", kernel_kind: ");
    text.push_str(kind_name(kind));
    text.push_str(", .. }");
    assert(text@ =~= searcher_text(engine, kind));
    text
}

/// A hexadecimal digit.
pub open spec fn hex_digit(value: int) -> char {
    if value < 10 {
        ('0' as int + value) as char
    } else {
        ('a' as int + value - 10) as char
    }
}

/// A byte as it stands in a byte literal: printable ASCII as it is, the quotes and the backslash
/// and the usual control characters behind a backslash, and any other byte in hexadecimal.
pub open spec fn escaped(byte: u8) -> Seq<char> {
    if byte == 9 {
        seq!['\\', 't']
    } else if byte == 10 {
        seq!['\\', 'n']
    } else if byte == 13 {
        seq!['\\', 'r']
    } else if byte == 34 || byte == 39 || byte == 92 {
        seq!['\\', byte as char]
    } else if 32 <= byte < 127 {
        seq![byte as char]
    } else {
        seq!['\\', 'x', hex_digit(byte as int / 16), hex_digit(byte as int % 16)]
    }
}

/// A byte literal.
pub open spec fn literal(byte: u8) -> Seq<char> {
    seq!['b', '\''] + escaped(byte) + seq!['\'']
}

/// The members of `set` below `bound` as byte literals, separated by commas.
pub open spec fn literals(set: Set<u8>, bound: int) -> Seq<char>
    decreases bound,
{
    if bound <= 0 {
        Seq::empty()
    } else {
        let before = literals(set, bound - 1);
        let byte = (bound - 1) as u8;
        if !set.contains(byte) {
            before
        } else if before.len() == 0 {
            literal(byte)
        } else {
            before + seq![',', ' '] + literal(byte)
        }
    }
}

/// How a set is written.
pub open spec fn set_text(set: Set<u8>) -> Seq<char> {
    seq!['{'] + literals(set, 256) + seq!['}']
}

/// Writes a hexadecimal digit.
fn hex_char(value: u8) -> (digit: char)
    requires
        value < 16,
    ensures
        digit == hex_digit(value as int),
{
    if value < 10 {
        (48 + value) as char
    } else {
        (87 + value) as char
    }
}

/// Appends a byte literal.
fn write_literal(text: &mut String, byte: u8)
    ensures
        final(text)@ == old(text)@ + literal(byte),
{
    text.push('b');
    text.push('\'');
    if byte == 9 {
        text.push('\\');
        text.push('t');
    } else if byte == 10 {
        text.push('\\');
        text.push('n');
    } else if byte == 13 {
        text.push('\\');
        text.push('r');
    } else if byte == 34 || byte == 39 || byte == 92 {
        text.push('\\');
        text.push(byte as char);
    } else if 32 <= byte && byte < 127 {
        text.push(byte as char);
    } else {
        text.push('\\');
        text.push('x');
        text.push(hex_char(byte / 16));
        text.push(hex_char(byte % 16));
    }
    text.push('\'');
    assert(text@ =~= old(text)@ + literal(byte));
}

impl ByteSet {
    /// Writes the members as byte literals.
    pub fn debug_string(&self) -> (text: String)
        ensures
            text@ == set_text(self@),
    {
        let mut text = String::new();
        text.push('{');
        let mut empty = true;
        let mut next: usize = 0;
        assert(text@ =~= seq!['{'] + literals(self@, 0));
        while next < 256
            invariant
                next <= 256,
                text@ == seq!['{'] + literals(self@, next as int),
                empty == (literals(self@, next as int).len() == 0),
            decreases 256 - next,
        {
            let byte: u8 = next as u8;
            if self.contains(byte) {
                if !empty {
                    text.push(',');
                    text.push(' ');
                }
                write_literal(&mut text, byte);
                empty = false;
                assert(text@ =~= seq!['{'] + literals(self@, next + 1));
            }
            next += 1;
        }
        text.push('}');
        assert(text@ =~= set_text(self@));
        text
    }
}

// ---------------------------------------------------------------------------------------------
// Formatters.

/// A formatter: where text goes, and how it is to be laid out.
#[verifier::external_type_specification]
#[verifier::external_body]
pub struct ExFormatter<'a>(core::fmt::Formatter<'a>);

/// The error of a formatter whose text could not be taken.
#[verifier::external_type_specification]
#[verifier::external_body]
pub struct ExFormatError(core::fmt::Error);

/// A struct that is being written.
#[verifier::external_type_specification]
#[verifier::external_body]
pub struct ExDebugStruct<'a, 'b: 'a>(core::fmt::DebugStruct<'a, 'b>);

/// A set that is being written.
#[verifier::external_type_specification]
#[verifier::external_body]
pub struct ExDebugSet<'a, 'b: 'a>(core::fmt::DebugSet<'a, 'b>);

/// `Formatter::write_str` hands a string on to what is behind the formatter. Whether that takes it
/// is left open.
pub assume_specification<'a>[ core::fmt::Formatter::<'a>::write_str ](
    f: &mut core::fmt::Formatter<'a>,
    data: &str,
) -> core::fmt::Result
;

/// `Formatter::debug_struct` begins to write a struct. Nothing is claimed of what is behind the
/// formatter.
pub assume_specification<'a, 'b>[ core::fmt::Formatter::<'a>::debug_struct ](
    f: &'b mut core::fmt::Formatter<'a>,
    name: &str,
) -> core::fmt::DebugStruct<'b, 'a>
;

/// `DebugStruct::field` writes a field. Nothing is claimed of what is behind the formatter.
pub assume_specification<'a, 'b: 'a, 'c>[ core::fmt::DebugStruct::<'a, 'b>::field ](
    written: &'c mut core::fmt::DebugStruct<'a, 'b>,
    name: &str,
    value: &dyn core::fmt::Debug,
) -> &'c mut core::fmt::DebugStruct<'a, 'b>
;

/// `DebugStruct::finish_non_exhaustive` ends a struct of which not all fields are written. Whether
/// everything was taken is left open.
pub assume_specification<'a, 'b: 'a>[ core::fmt::DebugStruct::<'a, 'b>::finish_non_exhaustive ](
    written: &mut core::fmt::DebugStruct<'a, 'b>,
) -> core::fmt::Result
;

/// `Formatter::debug_set` begins to write a set. Nothing is claimed of what is behind the
/// formatter.
pub assume_specification<'a, 'b>[ core::fmt::Formatter::<'a>::debug_set ](
    f: &'b mut core::fmt::Formatter<'a>,
) -> core::fmt::DebugSet<'b, 'a>
;

/// `DebugSet::entry` writes an entry. Nothing is claimed of what is behind the formatter.
pub assume_specification<'a, 'b: 'a, 'c>[ core::fmt::DebugSet::<'a, 'b>::entry ](
    written: &'c mut core::fmt::DebugSet<'a, 'b>,
    entry: &dyn core::fmt::Debug,
) -> &'c mut core::fmt::DebugSet<'a, 'b>
;

/// `DebugSet::finish` ends a set. Whether everything was taken is left open.
pub assume_specification<'a, 'b: 'a>[ core::fmt::DebugSet::<'a, 'b>::finish ](
    written: &mut core::fmt::DebugSet<'a, 'b>,
) -> core::fmt::Result
;

/// A byte that is written as a byte literal.
struct Literal(u8);

impl fmt::Debug for Literal {
    /// Writes the literal.
    fn fmt(&self, f: &mut fmt::Formatter<'_>) -> fmt::Result {
        let mut text = String::new();
        write_literal(&mut text, self.0);
        f.write_str(text.as_str())
    }
}

impl fmt::Debug for ByteSet {
    /// Writes what [`ByteSet::members`] returns, each byte as a byte literal.
    ///
    /// On one line this is meant to be the text of [`ByteSet::debug_string`]. What reaches `f` is
    /// up to the formatter, and no contract speaks of it.
    fn fmt(&self, f: &mut fmt::Formatter<'_>) -> fmt::Result {
        let members = self.members();
        let mut written = f.debug_set();
        let mut next: usize = 0;
        while next < members.len()
            invariant
                next <= members.len(),
            decreases members.len() - next,
        {
            written.entry(&Literal(members[next]));
            next += 1;
        }
        written.finish()
    }
}

impl fmt::Debug for MemchrN {
    /// Writes which engine and which kernel the searcher uses.
    ///
    /// On one line this is meant to be the text of [`MemchrN::debug_string`]. What reaches `f` is
    /// up to the formatter, and no contract speaks of it.
    fn fmt(&self, f: &mut fmt::Formatter<'_>) -> fmt::Result {
        let (engine, kernel_kind) = (self.plan().engine(), self.plan().kernel_kind());
        f.debug_struct("MemchrN").field("engine", &engine).field(
            "kernel_kind",
            &kernel_kind,
        ).finish_non_exhaustive()
    }
}

} // verus!
