//! Thin verified fronts over the terminal handle's cursor and screen
//! primitives. The terminal itself is outside code; what is verified here is
//! the error mapping the engine's callers rely on.

use vstd::prelude::*;

use crate::InterpreterError;

verus! {

#[verifier::external_type_specification]
#[verifier::external_body]
pub struct ExTerm(console::Term);

/// Relies on console::Term::clear_screen: writes the clear-screen sequence
/// to the terminal and reports whether the write went through.
#[verifier::external_body]
fn term_clear_screen(t: &console::Term) -> bool {
    t.clear_screen().is_ok()
}

/// Relies on console::Term::move_cursor_to: moves the cursor to the 0-based
/// column and row and reports whether the write went through. The callee
/// formats the coordinates 1-based, so the machine's largest value would
/// overflow inside it and is kept out.
#[verifier::external_body]
fn term_move_cursor_to(t: &console::Term, columns: usize, rows: usize) -> bool
    requires
        columns < usize::MAX,
        rows < usize::MAX,
{
    t.move_cursor_to(columns, rows).is_ok()
}

/// Relies on console::Term::move_cursor_up: moves the cursor up by the given
/// number of lines, or to the top, and reports whether the write went
/// through.
#[verifier::external_body]
fn term_move_cursor_up(t: &console::Term, lines_n: usize) -> bool {
    t.move_cursor_up(lines_n).is_ok()
}

/// Relies on console::Term::flush: forces the handle's internal buffer out
/// to the terminal and reports whether the write went through.
#[verifier::external_body]
fn term_flush(t: &console::Term) -> bool {
    t.flush().is_ok()
}

/// Clears the terminal screen; a refusal by the terminal is the effect
/// error.
pub fn clear_terminal(stdout: &console::Term) -> (r: Result<(), InterpreterError>)
    ensures
        r matches Err(e) ==> e == InterpreterError::EffectError,
{
    if term_clear_screen(stdout) {
        Ok(())
    } else {
        Err(InterpreterError::EffectError)
    }
}

/// Moves the cursor to the given 0-based column and row and flushes the
/// handle; a refusal by the terminal is the effect error. The terminal
/// addresses the cursor 1-based, so each coordinate must leave room for
/// one.
pub fn move_cursor(stdout: &console::Term, columns: usize, rows: usize) -> (r: Result<
    (),
    InterpreterError,
>)
    requires
        columns < usize::MAX,
        rows < usize::MAX,
    ensures
        r matches Err(e) ==> e == InterpreterError::EffectError,
{
    if term_move_cursor_to(stdout, columns, rows) {
        let _ = term_flush(stdout);
        Ok(())
    } else {
        Err(InterpreterError::EffectError)
    }
}

/// Moves the cursor up by `lines_n` lines, or as far as the top; a refusal
/// by the terminal is the effect error.
pub fn move_to_previous_line(stdout: &console::Term, lines_n: usize) -> (r: Result<
    (),
    InterpreterError,
>)
    ensures
        r matches Err(e) ==> e == InterpreterError::EffectError,
{
    if term_move_cursor_up(stdout, lines_n) {
        Ok(())
    } else {
        Err(InterpreterError::EffectError)
    }
}

} // verus!
