//! The event vocabulary of the parser and the error taxonomy, together with
//! the ghost view [`SpecEvent`] that the contracts speak of.

use vstd::prelude::*;

verus! {

/// Tags the kind of a container carried on `Start`/`End` events.
#[derive(Debug, Clone, Copy, PartialEq, Eq, Structural)]
pub enum Block {
    Object,
    Array,
}

/// The token class that is grammatically valid next inside one container.
#[derive(Debug, Clone, Copy, PartialEq, Eq, Structural)]
pub enum ExpectType {
    Colon,
    Comma,
    Key,
    Value,
}

/// The kind of one level of nesting.  `Root` is the sentinel level that holds
/// the single top-level value; it is pushed at construction and never popped.
#[derive(Debug, Clone, Copy, PartialEq, Eq, Structural)]
pub enum ContainerType {
    Object,
    Array,
    Root,
}

/// One level of the parser's nesting stack: its kind and the token class
/// expected next at this level.
#[derive(Debug, Clone, Copy, PartialEq, Eq, Structural)]
pub struct Container {
    pub t: ContainerType,
    pub expect: ExpectType,
}

impl Container {
    /// The container pushed when `{` is accepted: an object first expects a key.
    pub fn object() -> (c: Container)
        ensures
            c == (Container { t: ContainerType::Object, expect: ExpectType::Key }),
    {
        Container { t: ContainerType::Object, expect: ExpectType::Key }
    }

    /// The container pushed when `[` is accepted: an array first expects a value.
    pub fn array() -> (c: Container)
        ensures
            c == (Container { t: ContainerType::Array, expect: ExpectType::Value }),
    {
        Container { t: ContainerType::Array, expect: ExpectType::Value }
    }

    /// The sentinel container seeded at construction: the root expects the
    /// document's single value.
    pub fn root() -> (c: Container)
        ensures
            c == (Container { t: ContainerType::Root, expect: ExpectType::Value }),
    {
        Container { t: ContainerType::Root, expect: ExpectType::Value }
    }
}

/// An exact decimal number: the value is `mantissa / 10^scale`, negated when
/// `minus` holds.  This is how the parser reports a literal whose net decimal
/// scale is negative; converting it to a binary floating-point value is left
/// to the caller, so that everything here stays in exact integer arithmetic.
#[derive(Debug, Clone, Copy, PartialEq, Eq, Structural)]
pub struct Decimal {
    pub mantissa: u64,
    pub scale: u32,
    pub minus: bool,
}

/// A tagged numeric value.  The tag is chosen purely from the lexical shape
/// of the literal: a non-negative net scale gives `Uint` (or `Int` when the
/// literal had a leading minus), a negative net scale gives `Float`.
#[derive(Debug, Clone, Copy, PartialEq, Eq, Structural)]
pub enum N {
    Float(Decimal),
    Int(i64),
    Uint(u64),
}

/// The unit the parser yields: exactly one per successful pull.
#[derive(Debug, PartialEq, Eq)]
pub enum Event {
    Start(Block),
    End(Block),
    Key(String),
    String(String),
    Number(N),
    Bool(bool),
    Null,
}

/// The ghost view of an [`Event`]: text is a character sequence.
pub ghost enum SpecEvent {
    Start(Block),
    End(Block),
    Key(Seq<char>),
    Str(Seq<char>),
    Number(N),
    Bool(bool),
    Null,
}

impl View for Event {
    type V = SpecEvent;

    open spec fn view(&self) -> SpecEvent {
        match self {
            Event::Start(b) => SpecEvent::Start(*b),
            Event::End(b) => SpecEvent::End(*b),
            Event::Key(s) => SpecEvent::Key(s@),
            Event::String(s) => SpecEvent::Str(s@),
            Event::Number(n) => SpecEvent::Number(*n),
            Event::Bool(b) => SpecEvent::Bool(*b),
            Event::Null => SpecEvent::Null,
        }
    }
}

/// What can go wrong during a pull.
///
/// - `Syntax`: a grammar violation; carries the token class that was expected
///   and the byte that was found.
/// - `Decoding`: a token that fails to decode: invalid UTF-8 in a string, an
///   illegal escape, a malformed `\u` sequence or surrogate pair, a malformed
///   numeric literal, or a numeric value that does not fit its representation.
/// - `Eof`: the input ended where the grammar required more bytes.
#[derive(Debug, Clone, Copy, PartialEq, Eq, Structural)]
pub enum Error {
    Syntax(ExpectType, u8),
    Decoding,
    Eof,
}

} // verus!
