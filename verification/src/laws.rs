//! What the library promises of its answers, in terms of what it is asked.
//!
//! The laws here relate the texts, tokens, files and projects that are handed
//! in to what comes back. They speak of bytes, characters and fields, and of how
//! the answers to two questions relate.

pub mod answers;
pub mod declarations;
pub mod lists;
pub mod offers;
pub mod reports;
pub mod texts;
