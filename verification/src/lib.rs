//! Interpreter core for a line-oriented terminal animation script format.
//!
//! A script is a sequence of text lines; a line either holds a bracketed
//! directive token with double-quoted arguments, or is literal text destined
//! for the terminal. The engine walks a mutable buffer of lines, keeping a
//! program counter, a pending print buffer and idempotency caches for the
//! flow-altering directives.

use vstd::prelude::*;

pub mod directive;
pub mod engine;
pub mod lexer;
pub mod markers;
pub mod term;
pub mod text;

verus! {

/// The error taxonomy of one interpreter run. Every member is fatal: the run
/// stops at the directive that raised it.
#[derive(Clone, Copy, PartialEq, Eq, Debug)]
pub enum InterpreterError {
    /// A directive line carried a different number of quoted arguments than
    /// the directive declares.
    ArgCountMismatch { received: usize, expected: usize },
    /// A numeric, duration or key argument failed to parse.
    ArgFormatError,
    /// A path argument was empty, or relative while relative paths are not
    /// allowed for this run.
    PathError,
    /// An outside collaborator (terminal, audio, image, browser) failed.
    EffectError,
    /// A key name handed to the input wait does not map to a known key.
    UnsupportedKey,
}

} // verus!
