//! Buffering layer of a source-code pretty-printer.
//!
//! The crate accumulates a document-shaped intermediate representation of
//! "to be printed" tokens, line breaks, and layout directives before a
//! separate measuring stage decides actual line wrapping. It offers a
//! polymorphic write sink ([`buffer::Buffer`]), composable decorators over
//! sinks, checkpoint/rewind via snapshots, scoped recordings, and a
//! canonicalizer that rewrites a document as it would render at infinite
//! print width.

pub mod buffer;
pub mod element;
pub mod extensions;
pub mod inspect;
pub mod laws;
pub mod preamble;
pub mod recording;
pub mod remove_soft_lines;
pub mod snapshot;
pub mod state;
