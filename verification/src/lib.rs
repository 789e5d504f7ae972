//! A scanner for a small textual format of `key:"value"` pairs separated by
//! whitespace, with `\"` as the sole escape inside a value.  The scanner
//! produces an ordered mapping of string keys to string values; a renderer
//! writes such a mapping back out in the same format; an enrichment step
//! decodes four of the values as hexadecimal integers and derives a fifth
//! from a bit-pattern recurrence.

pub mod chars;
pub mod enrich;
pub mod mapping;
pub mod render;
pub mod scanner;

pub use chars::is_whitespace_char;
pub use mapping::Mapping;
pub use scanner::ParseError;
