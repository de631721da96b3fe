//! Lexical-analysis front end for a small dynamically-typed scripting
//! language: one linear pass turns a character buffer into a finite token
//! sequence (always closed by an End-of-Input token) and an ordered list of
//! lexical diagnostics. Malformed input never aborts the pass; it only adds
//! diagnostics.

pub mod laws;
pub mod model;
pub mod scanner;
pub mod text;
pub mod token;
