//! The decisions of a language server for Kalcite projects: what it reports of
//! a document, what it completes, explains and highlights, where it finds
//! definitions, uses and symbols, what renaming changes, and what it remembers of
//! the documents that a client has open.
//!
//! Nothing here reads files or speaks to a client. What a decision rests on is
//! handed in as plain values, and what is to be done comes back as such.

pub mod arguments;
pub mod bytes;
pub mod completion;
pub mod definition;
pub mod diagnostics;
pub mod engine;
pub mod files;
pub mod highlight;
pub mod laws;
pub mod order;
pub mod position;
pub mod references;
pub mod session;
pub mod symbols;
pub mod syntax;
pub mod words;
