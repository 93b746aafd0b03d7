//! Reading and writing of configuration data held as a PHP-style array
//! literal, optionally wrapped in `<?php ... ?>` tags.
//!
//! The pipeline has three stages: a character-level lexer that turns source
//! text into positioned tokens, a deserializer that walks the token sequence
//! with an explicit stack and builds an ordered tree of key/value pairs, and
//! a serializer that writes the tree back as indented source text, choosing
//! for each string the more natural single- or double-quoted literal form.

pub mod kvp;

pub mod laws;

pub mod roundtrip;

pub mod deser;

pub mod lex;

pub mod ser;

pub(crate) mod text;

pub use deser::{DeserError, DeserErrorKind};
pub use kvp::{KeyValuePair, Value};
pub use lex::{eof, lex, lex_str, LexError, LexErrorKind, Position, State, Token};
pub use ser::ser_str;
pub use deser::deser_tokens;
