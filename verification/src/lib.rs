//! A streaming ("pull") JSON parser.
//!
//! The parser consumes a byte buffer incrementally and yields one [`Event`]
//! per pull: object/array starts and ends, keys, strings, numbers, booleans
//! and nulls.  No document tree is ever built; memory use is bounded by the
//! nesting depth plus the token currently being lexed.
//!
//! The grammar the parser enforces, the lexing of strings (including escape
//! sequences and UTF-16 surrogate pairs) and the classification of numeric
//! literals are all stated as specification functions in [`model`], and every
//! executable function is proved to implement them exactly.

pub mod events;
pub mod model;
pub mod parser;
pub mod reader;

pub use events::Block;
pub use events::Container;
pub use events::ContainerType;
pub use events::Decimal;
pub use events::Error;
pub use events::Event;
pub use events::ExpectType;
pub use events::N;
pub use parser::Parser;
