//! The terminal fronts, against a real terminal handle. Where the handle is
//! not a terminal the writes still go through a buffer, so these only check
//! that the calls return and that failures map to the effect error.

use animessage::term::{clear_terminal, move_cursor, move_to_previous_line};
use animessage::InterpreterError;

#[test]
fn terminal_calls_return_and_map_failures_to_effect_error() {
    let term = console::Term::stdout();
    for r in [
        clear_terminal(&term),
        move_cursor(&term, 0, 0),
        move_to_previous_line(&term, 1),
    ] {
        match r {
            Ok(()) => {}
            Err(e) => assert_eq!(e, InterpreterError::EffectError),
        }
    }
}
