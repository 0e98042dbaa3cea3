//! A list of short tasks kept in step with a plain-text buffer.
//!
//! The text notation has one keyword and two string forms: `todo <text>` for
//! a task on one line, `todo { ... }` for a task that spans several lines.
//! [`lexer`] turns the bytes of a buffer into tokens with their places in the
//! text, [`parser`] groups the tokens into items and errors, and
//! [`reconcile`] compares the items of a buffer with the records of a store
//! and with what the buffer held before. A task is known by the digest of
//! its message ([`identity`]), so the same text is the same task wherever it
//! is written.
//!
//! Around this stand the list of the store ([`collection`]) with the way a
//! reconciliation is carried out on it ([`sync`]), the bytes in which the
//! list is saved ([`binary`]), the text that is written into a buffer for an
//! editor ([`buffer`]) and what the editor shows above each task
//! ([`lens`]).

pub mod span;
pub mod lexer;
pub mod normalize;
pub mod parser;
pub mod identity;
pub mod record;
pub mod membership;
pub mod reconcile;
pub mod collection;
pub mod sync;
pub mod binary;
pub mod buffer;
pub mod lens;
pub mod config;
