//! A Metamath proof checker: a tokenizer for database files, the scoped
//! frame stack of declarations and hypotheses, and the proof verifier.
pub mod error;
pub mod frame;
pub mod laws;
pub mod mm;
pub mod stream;
pub mod text;
pub mod tokens;
