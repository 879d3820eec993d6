//! A verified JSON parser.
//!
//! Given a character sequence the library either returns a fully built value
//! tree together with the unconsumed remainder of the input, or a structured
//! parse failure. The grammar, the escape decoding and the two recursive
//! composite forms are all specified by spec functions in [`grammar`] and the
//! executable parsers in [`parser`] are proved to compute exactly what those
//! spec functions say.

pub mod value;
pub mod grammar;
pub mod parser;
pub mod laws;
