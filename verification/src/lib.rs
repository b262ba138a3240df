//! Forthic core: a concatenative, stack-based language runtime.
//!
//! The crate provides a tokenizer that turns source text into positioned
//! tokens, an interpreter that compiles or executes the token stream against
//! a hierarchy of modules, and the module/word object model that the
//! interpreter dispatches through.

pub mod chars;
pub mod errors;
pub mod literals;
pub mod module;
pub mod tokenizer;
pub mod interpreter;
pub mod standard;
pub mod tz;
pub mod word_options;
