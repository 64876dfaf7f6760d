//! Random value sequences: a statement tree is bound into a session of named,
//! independently seeded sequences of 32-bit values that are stepped on demand.

pub mod ast;
pub mod bind;
pub mod context;
pub mod eval;
pub mod expr;
pub mod laws;
pub mod random;
pub mod reach;
pub mod searchpath;
pub mod source;
pub mod text;
pub mod variable;
