//! A scanner and evaluator for a small bracket-structured language whose
//! programs call natively implemented functions.
//!
//! `scanner` turns a text into a tree of tokens (`esotypes`), with the
//! character classes of `lexicon`; `structure` states what the tree keeps of
//! the text. `evaluator` runs one pass over the tokens, with the names of
//! `bindings` and the modules of `registry`. `trace` writes a token tree out
//! as text, `natives` holds what the native function `print` writes, and
//! `foreign` holds what is taken on trust from code outside this library.

pub mod bindings;
pub mod esotypes;
pub mod evaluator;
pub mod foreign;
pub mod lexicon;
pub mod natives;
pub mod registry;
pub mod scanner;
pub mod structure;
pub mod text;
pub mod trace;
