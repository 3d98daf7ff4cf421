//! Parser for the Jade digital-test description language: a line-oriented
//! directive language (`.power`, `.thresholds`, `.group`, `.mode`, `.cycle`,
//! `.plotdef`, `.plot`, raw test-vector lines) with an embedded
//! signal-expression grammar.
//!
//! Every parser carries a contract pinning its result to a specification
//! function over the input's characters: `mod_test` holds the directive
//! parsers and the line-by-line assembler, `sig` the signal-expression
//! grammar, `num` the exact decimal numbers the directives carry, `text` the
//! shared scanning primitives, `render` the cycle-line pretty-printer and its
//! round-trip proof, and `laws` the grammar-wide properties.

pub mod bail;
pub mod groups;
pub mod laws;
pub mod num;
pub mod render;
pub mod sig;
pub mod text;
pub mod types;
