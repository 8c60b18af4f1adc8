//! A single-pass batch compiler for an eight-symbol tape-machine language.
//!
//! The pipeline filters the source text down to the recognized control
//! symbols, folds opposite-direction runs into a signed run-length form,
//! estimates the tape length needed for the pointer's rightward excursion,
//! and emits assembly text into a fixed boilerplate template.

pub mod codegen;
pub mod fold;
pub mod lexer;
pub mod pipeline;
pub mod symbols;
pub mod tape;
pub mod text;
