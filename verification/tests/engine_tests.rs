//! The interpreter engine, driven step by step the way a runner would.

use animessage::engine::{Engine, StepOutcome};
use animessage::lexer::DurationVal;
use animessage::InterpreterError;

/// Runs a dry-mode engine to completion, ignoring every effect request
/// except a pending include, which no test script here uses.
fn run_dry(source: &str) -> Result<(), InterpreterError> {
    let mut e = Engine::new(source.as_bytes(), true, false, true, 0);
    for _ in 0..10_000 {
        match e.step()? {
            StepOutcome::Finished => return Ok(()),
            _ => {}
        }
    }
    panic!("the script did not terminate within the step bound");
}

/// Runs a live-mode engine to completion, collecting the effects it asked
/// for.
fn run_collect(source: &str) -> Result<Vec<StepOutcome>, InterpreterError> {
    let mut e = Engine::new(source.as_bytes(), true, false, false, 0);
    let mut effects = Vec::new();
    for _ in 0..10_000 {
        match e.step()? {
            StepOutcome::Finished => return Ok(effects),
            StepOutcome::Quiet => {}
            other => effects.push(other),
        }
    }
    panic!("the script did not terminate within the step bound");
}

#[test]
fn empty_then_literal_then_line_flush_terminates_dry() {
    // dry run, debug disabled: structural validation only
    assert!(run_dry("--[EMPTY]--\nhello\n--[PRINT_LINE]-- \"0.0\"").is_ok());
}

#[test]
fn empty_then_literal_then_line_flush_emits_blank_line_then_hello() {
    let effects = run_collect("--[EMPTY]--\nhello\n--[PRINT_LINE]-- \"0.0\"").unwrap();
    assert_eq!(effects.len(), 1);
    match &effects[0] {
        StepOutcome::Flush { bytes, interval } => {
            assert_eq!(bytes.as_slice(), b"\nhello\n\n");
            assert_eq!(*interval, DurationVal { secs: 0, nanos: 0 });
        }
        other => panic!("expected a flush, got {:?}", other),
    }
}

#[test]
fn plain_flush_has_no_trailing_newline() {
    let effects = run_collect("hello\n--[PRINT]-- \"0.0\"").unwrap();
    match &effects[0] {
        StepOutcome::Flush { bytes, .. } => assert_eq!(bytes.as_slice(), b"hello\n"),
        other => panic!("expected a flush, got {:?}", other),
    }
}

#[test]
fn timed_line_flush_keeps_lines_in_order() {
    let effects = run_collect("one\ntwo\n--[PRINT_LINE]-- \"0.01\"").unwrap();
    match &effects[0] {
        StepOutcome::Flush { bytes, interval } => {
            assert_eq!(bytes.as_slice(), b"one\ntwo\n");
            assert_eq!(
                *interval,
                DurationVal {
                    secs: 0,
                    nanos: 10_000_000
                }
            );
        }
        other => panic!("expected a flush, got {:?}", other),
    }
}

#[test]
fn timed_plain_flush_keeps_every_character_in_order() {
    let effects = run_collect("one\ntwo\n--[PRINT]-- \"0.01\"").unwrap();
    match &effects[0] {
        StepOutcome::Flush { bytes, .. } => assert_eq!(bytes.as_slice(), b"one\ntwo\n"),
        other => panic!("expected a flush, got {:?}", other),
    }
}

#[test]
fn flush_of_empty_buffer_emits_nothing() {
    let effects = run_collect("--[PRINT_LINE]-- \"0.0\"").unwrap();
    assert!(effects.is_empty());
}

#[test]
fn marker_goto_forward_skips_lines_and_exit_ends_the_run() {
    // markers are transparent at run time; the jump lands on the 1-based
    // target line, here the exit, so the two literals never reach the buffer
    let src = "--[MARKER]-- \"a\"\n--[GOTO]-- \"5\"\nSKIPPED\nSTOP\n--[EXIT]--";
    let mut e = Engine::new(src.as_bytes(), true, false, true, 0);
    loop {
        match e.step().unwrap() {
            StepOutcome::Finished => break,
            _ => {}
        }
    }
    assert_eq!(e.print_buffer().as_slice(), b"");
}

#[test]
fn backward_goto_fires_exactly_once() {
    // the jump returns to line 1 once; on the second visit of the origin
    // line it falls through, so A is buffered twice and B once
    let src = "A\n--[GOTO]-- \"1\"\nB\n--[PRINT_LINE]-- \"0.0\"";
    let effects = run_collect(src).unwrap();
    match &effects[0] {
        StepOutcome::Flush { bytes, .. } => assert_eq!(bytes.as_slice(), b"A\nA\nB\n\n"),
        other => panic!("expected a flush, got {:?}", other),
    }
}

#[test]
fn goto_to_nonexistent_line_ends_the_run() {
    assert!(run_dry("--[GOTO]-- \"99\"\nX").is_ok());
}

#[test]
fn goto_rejects_zero_and_text_targets() {
    assert_eq!(
        run_dry("--[GOTO]-- \"0\"").unwrap_err(),
        InterpreterError::ArgFormatError
    );
    assert_eq!(
        run_dry("--[GOTO]-- \"five\"").unwrap_err(),
        InterpreterError::ArgFormatError
    );
}

#[test]
fn wait_with_malformed_duration_fails_with_format_error() {
    // the run stops at the directive; the literal after it is never buffered
    let src = "--[WAIT]-- \"notanumber\"\nafter";
    let mut e = Engine::new(src.as_bytes(), true, false, true, 0);
    assert_eq!(e.step().unwrap_err(), InterpreterError::ArgFormatError);
    assert!(e.is_finished());
    assert_eq!(e.print_buffer().as_slice(), b"");
}

#[test]
fn wait_hands_out_the_parsed_sleep() {
    let effects = run_collect("--[WAIT]-- \"1.5\"").unwrap();
    assert_eq!(
        effects,
        vec![StepOutcome::Sleep {
            interval: DurationVal {
                secs: 1,
                nanos: 500_000_000
            }
        }]
    );
}

#[test]
fn replace_rewrites_every_occurrence_once() {
    let src = "aba\n--[REPLACE]-- \"1\" \"a\" \"x\"\n--[PRINT]-- \"0.0\"";
    // the replace edits line 1 before the literal ever flushes? No: line 1
    // was already buffered when the counter passed it; the rewrite changes
    // the buffer line, not the print buffer.
    let mut e = Engine::new(src.as_bytes(), true, false, true, 0);
    e.step().unwrap(); // buffers "aba\n"
    e.step().unwrap(); // rewrites line 1
    assert_eq!(e.line_at(0).as_slice(), b"xbx");
}

#[test]
fn replace_same_pair_twice_mutates_only_once() {
    // the second application of the identical pair is a no-op; a fresh pair
    // applies again
    let src = "aa\n--[REPLACE]-- \"1\" \"a\" \"aa\"";
    let mut e = Engine::new(src.as_bytes(), true, false, true, 0);
    e.step().unwrap();
    e.step().unwrap();
    assert_eq!(e.line_at(0).as_slice(), b"aaaa");
    // revisit the replace line with the same pair: nothing changes
    let src2 = "aa\n--[GOTO]-- \"4\"\nX\n--[REPLACE]-- \"1\" \"a\" \"aa\"\n--[GOTO]-- \"4\"";
    let mut e2 = Engine::new(src2.as_bytes(), true, false, true, 0);
    // aa; goto 4; replace (aa -> aaaa); goto fires back to 4; replace again: cached
    for _ in 0..6 {
        if e2.is_finished() {
            break;
        }
        e2.step().unwrap();
    }
    assert_eq!(e2.line_at(0).as_slice(), b"aaaa");
}

#[test]
fn replace_different_pair_mutates_again() {
    let src = "ab\n--[GOTO]-- \"4\"\nX\n--[REPLACE]-- \"1\" \"a\" \"b\"\n--[REPLACE]-- \"1\" \"b\" \"c\"";
    let mut e = Engine::new(src.as_bytes(), true, false, true, 0);
    while !e.is_finished() {
        e.step().unwrap();
    }
    // a->b gives "bb", then b->c gives "cc"
    assert_eq!(e.line_at(0).as_slice(), b"cc");
}

#[test]
fn replace_out_of_range_target_fails() {
    assert_eq!(
        run_dry("--[REPLACE]-- \"9\" \"a\" \"b\"").unwrap_err(),
        InterpreterError::ArgFormatError
    );
}

#[test]
fn del_line_shrinks_the_buffer_and_shifts_line_numbers() {
    let src = "first\n--[DEL_LINE]-- \"1\"\nlast";
    let mut e = Engine::new(src.as_bytes(), true, false, true, 0);
    e.step().unwrap(); // buffers "first"
    assert_eq!(e.line_count(), 3);
    e.step().unwrap(); // deletes line 1
    assert_eq!(e.line_count(), 2);
    assert_eq!(e.line_at(0).as_slice(), b"--[DEL_LINE]-- \"1\"");
    assert_eq!(e.line_at(1).as_slice(), b"last");
    // the deletion shifted "last" up into a position the counter has already
    // passed, so the run ends without executing it
    assert_eq!(e.step().unwrap(), StepOutcome::Finished);
    assert!(e.is_finished());
}

#[test]
fn del_line_rejects_zero_and_out_of_range() {
    assert_eq!(
        run_dry("--[DEL_LINE]-- \"0\"").unwrap_err(),
        InterpreterError::ArgFormatError
    );
    assert_eq!(
        run_dry("--[DEL_LINE]-- \"5\"").unwrap_err(),
        InterpreterError::ArgFormatError
    );
}

#[test]
fn include_splices_the_file_in_place_and_resumes_there() {
    let src = "before\n--[INCLUDE]-- \"/tmp/part.anim\"\nafter\n--[PRINT_LINE]-- \"0.0\"";
    let mut e = Engine::new(src.as_bytes(), true, false, true, 0);
    e.step().unwrap(); // buffers "before"
    match e.step().unwrap() {
        StepOutcome::Include { path } => assert_eq!(path.as_slice(), b"/tmp/part.anim"),
        other => panic!("expected an include request, got {:?}", other),
    }
    // the engine re-requests the same file until the text arrives
    match e.step().unwrap() {
        StepOutcome::Include { path } => assert_eq!(path.as_slice(), b"/tmp/part.anim"),
        other => panic!("expected the include to be re-requested, got {:?}", other),
    }
    e.splice_include(b"mid1\nmid2");
    // the directive line is gone, the included lines stand in its place
    assert_eq!(e.line_count(), 5);
    assert_eq!(e.line_at(0).as_slice(), b"before");
    assert_eq!(e.line_at(1).as_slice(), b"mid1");
    assert_eq!(e.line_at(2).as_slice(), b"mid2");
    assert_eq!(e.line_at(3).as_slice(), b"after");
    assert_eq!(e.counter(), 1);
    // execution resumes at the first spliced line
    while !e.is_finished() {
        e.step().unwrap();
    }
    assert_eq!(e.print_buffer().as_slice(), b"");
}

#[test]
fn include_of_empty_text_just_drops_the_directive_line() {
    let src = "--[INCLUDE]-- \"/tmp/empty.anim\"\nafter";
    let mut e = Engine::new(src.as_bytes(), true, false, true, 0);
    match e.step().unwrap() {
        StepOutcome::Include { .. } => {}
        other => panic!("expected an include request, got {:?}", other),
    }
    e.splice_include(b"");
    assert_eq!(e.line_count(), 1);
    assert_eq!(e.line_at(0).as_slice(), b"after");
    assert_eq!(e.counter(), 0);
}

#[test]
fn relative_path_is_refused_when_the_policy_forbids_it() {
    let src = "--[INCLUDE]-- \"part.anim\"";
    let mut e = Engine::new(src.as_bytes(), false, false, true, 0);
    assert_eq!(e.step().unwrap_err(), InterpreterError::PathError);
    let src2 = "--[AUDIO]-- \"tune.ogg\"";
    let mut e2 = Engine::new(src2.as_bytes(), false, false, true, 0);
    assert_eq!(e2.step().unwrap_err(), InterpreterError::PathError);
}

#[test]
fn absolute_path_is_always_allowed() {
    let src = "--[AUDIO]-- \"/tmp/tune.ogg\"";
    let mut e = Engine::new(src.as_bytes(), false, false, true, 0);
    match e.step().unwrap() {
        StepOutcome::Audio { path } => assert_eq!(path.as_slice(), b"/tmp/tune.ogg"),
        other => panic!("expected an audio request, got {:?}", other),
    }
}

#[test]
fn empty_path_is_a_path_error() {
    assert_eq!(
        run_dry("--[IMAGE]-- \"\"").unwrap_err(),
        InterpreterError::PathError
    );
}

#[test]
fn open_url_rejects_whitespace_and_empty() {
    assert_eq!(
        run_dry("--[OPEN_URL]-- \"two words\"").unwrap_err(),
        InterpreterError::ArgFormatError
    );
    assert_eq!(
        run_dry("--[OPEN_URL]-- \"\"").unwrap_err(),
        InterpreterError::ArgFormatError
    );
}

#[test]
fn open_url_is_offered_even_on_a_dry_run() {
    let src = "--[OPEN_URL]-- \"https://example.org\"";
    let mut e = Engine::new(src.as_bytes(), true, false, true, 0);
    match e.step().unwrap() {
        StepOutcome::OpenUrl { url } => assert_eq!(url.as_slice(), b"https://example.org"),
        other => panic!("expected a URL offer, got {:?}", other),
    }
}

#[test]
fn wait_for_input_folds_single_character_keys_to_upper_case() {
    let effects = run_collect("--[WAIT_FOR_INPUT]-- \"q\"").unwrap();
    assert_eq!(
        effects,
        vec![StepOutcome::WaitKey { key: b"Q".to_vec() }]
    );
    let effects2 = run_collect("--[WAIT_FOR_INPUT]-- \"LControl\"").unwrap();
    assert_eq!(
        effects2,
        vec![StepOutcome::WaitKey {
            key: b"LControl".to_vec()
        }]
    );
}

#[test]
fn resize_parses_two_bounded_numbers() {
    let effects = run_collect("--[RESIZE]-- \"80\" \"24\"").unwrap();
    assert_eq!(
        effects,
        vec![StepOutcome::Resize {
            columns: 80,
            rows: 24
        }]
    );
    assert_eq!(
        run_dry("--[RESIZE]-- \"80000\" \"24\"").unwrap_err(),
        InterpreterError::ArgFormatError
    );
    assert_eq!(
        run_collect("--[RESIZE]-- \"80\"").unwrap_err(),
        InterpreterError::ArgCountMismatch {
            received: 1,
            expected: 2
        }
    );
}

#[test]
fn move_cursor_rejects_the_unaddressable_top_coordinate() {
    assert_eq!(
        run_dry("--[MOVE_CURSOR]-- \"18446744073709551615\" \"0\"").unwrap_err(),
        InterpreterError::ArgFormatError
    );
}

#[test]
fn move_cursor_is_suppressed_in_debug_mode() {
    let src = "--[MOVE_CURSOR]-- \"3\" \"4\"";
    let mut dbg = Engine::new(src.as_bytes(), true, true, false, 0);
    assert_eq!(dbg.step().unwrap(), StepOutcome::Quiet);
    let mut live = Engine::new(src.as_bytes(), true, false, false, 0);
    assert_eq!(
        live.step().unwrap(),
        StepOutcome::MoveCursor { columns: 3, rows: 4 }
    );
}

#[test]
fn clear_is_suppressed_in_debug_mode_but_not_on_a_dry_run() {
    let src = "--[CLEAR]--";
    let mut dbg = Engine::new(src.as_bytes(), true, true, true, 0);
    assert_eq!(dbg.step().unwrap(), StepOutcome::Quiet);
    let mut dry = Engine::new(src.as_bytes(), true, false, true, 0);
    assert_eq!(dry.step().unwrap(), StepOutcome::Clear);
}

#[test]
fn cursor_visibility_toggles_are_skipped_on_a_dry_run() {
    assert!(run_dry("--[HIDE_CURSOR]--\n--[SHOW_CURSOR]--").is_ok());
    let effects = run_collect("--[HIDE_CURSOR]--\n--[SHOW_CURSOR]--").unwrap();
    assert_eq!(effects, vec![StepOutcome::HideCursor, StepOutcome::ShowCursor]);
}

#[test]
fn title_is_set_even_on_a_dry_run() {
    let src = "--[TITLE]-- \"greetings\"";
    let mut e = Engine::new(src.as_bytes(), true, false, true, 0);
    assert_eq!(
        e.step().unwrap(),
        StepOutcome::Title {
            text: b"greetings".to_vec()
        }
    );
}

#[test]
fn escape_buffers_the_rest_of_the_line_verbatim() {
    let src = "--[ESCAPE]-- --[CLEAR]-- kept\n--[PRINT]-- \"0.0\"";
    let effects = run_collect(src).unwrap();
    match &effects[0] {
        StepOutcome::Flush { bytes, .. } => assert_eq!(bytes.as_slice(), b"--[CLEAR]-- kept\n"),
        other => panic!("expected a flush, got {:?}", other),
    }
}

#[test]
fn notes_blank_lines_and_markers_are_transparent() {
    let src = "--[NOTE]-- remark\n\n   \n--[MARKER]-- \"m\"\ntext\n--[PRINT]-- \"0.0\"";
    let effects = run_collect(src).unwrap();
    match &effects[0] {
        StepOutcome::Flush { bytes, .. } => assert_eq!(bytes.as_slice(), b"text\n"),
        other => panic!("expected a flush, got {:?}", other),
    }
}

#[test]
fn directive_with_trailing_text_is_literal_when_argument_free() {
    // argument-free tokens must stand alone on their line
    let src = "--[CLEAR]-- extra\n--[PRINT]-- \"0.0\"";
    let effects = run_collect(src).unwrap();
    match &effects[0] {
        StepOutcome::Flush { bytes, .. } => {
            assert_eq!(bytes.as_slice(), b"--[CLEAR]-- extra\n")
        }
        other => panic!("expected a flush, got {:?}", other),
    }
}

#[test]
fn exit_discards_the_unflushed_buffer() {
    let src = "pending text\n--[EXIT]--\nnever";
    let mut e = Engine::new(src.as_bytes(), true, false, false, 0);
    e.step().unwrap();
    assert_eq!(e.step().unwrap(), StepOutcome::Finished);
    assert!(e.is_finished());
    assert_eq!(e.print_buffer().as_slice(), b"pending text\n");
}

#[test]
fn the_disabled_variable_directive_ends_the_run() {
    let src = "--[VAR]-- \"SET\" \"x\" \"int\" \"1\"\nnever";
    let mut e = Engine::new(src.as_bytes(), true, false, true, 0);
    assert_eq!(e.step().unwrap(), StepOutcome::Finished);
    assert!(e.is_finished());
}

#[test]
fn start_index_skips_the_lines_before_it() {
    let src = "unseen\nseen\n--[PRINT]-- \"0.0\"";
    let mut e = Engine::new(src.as_bytes(), true, false, false, 1);
    e.step().unwrap();
    match e.step().unwrap() {
        StepOutcome::Flush { bytes, .. } => assert_eq!(bytes.as_slice(), b"seen\n"),
        other => panic!("expected a flush, got {:?}", other),
    }
}

#[test]
fn a_finished_engine_stays_finished() {
    let mut e = Engine::new(b"--[EXIT]--", true, false, true, 0);
    assert_eq!(e.step().unwrap(), StepOutcome::Finished);
    assert_eq!(e.step().unwrap(), StepOutcome::Finished);
}

#[test]
fn crlf_sources_lose_their_carriage_returns() {
    let src = "one\r\ntwo\r\n--[PRINT_LINE]-- \"0.0\"";
    let effects = run_collect(src).unwrap();
    match &effects[0] {
        StepOutcome::Flush { bytes, .. } => assert_eq!(bytes.as_slice(), b"one\ntwo\n\n"),
        other => panic!("expected a flush, got {:?}", other),
    }
}

#[test]
fn syntax_test() {
    // a dry debug-style pass over a script touching most directives
    let src = "--[TITLE]-- \"demo\"\n--[NOTE]-- remark\n--[MARKER]-- \"start\"\nhello\n--[EMPTY]--\n--[ESCAPE]-- --[EXIT]-- shown, not run\n--[PRINT_LINE]-- \"0.02\"\n--[WAIT]-- \"0.1\"\n--[CLEAR]--\n--[MOVE_CURSOR]-- \"0\" \"0\"\n--[HIDE_CURSOR]--\n--[SHOW_CURSOR]--\n--[GOTO]-- \"15\"\nskipped\n--[EXIT]--";
    let res = run_dry(src);
    assert!(res.is_ok());
}

#[test]
fn relative_path_is_allowed_when_the_policy_permits_it() {
    let src = "--[INCLUDE]-- \"part.anim\"";
    let mut e = Engine::new(src.as_bytes(), true, false, true, 0);
    match e.step().unwrap() {
        StepOutcome::Include { path } => assert_eq!(path.as_slice(), b"part.anim"),
        other => panic!("expected an include request, got {:?}", other),
    }
}

#[test]
fn bare_escape_line_buffers_just_a_newline() {
    let src = "--[ESCAPE]--\nx\n--[PRINT]-- \"0.0\"";
    let effects = run_collect(src).unwrap();
    match &effects[0] {
        StepOutcome::Flush { bytes, .. } => assert_eq!(bytes.as_slice(), b"\nx\n"),
        other => panic!("expected a flush, got {:?}", other),
    }
}

#[test]
fn literal_lines_keep_their_surrounding_whitespace() {
    let src = "  hi  \n--[PRINT]-- \"0.0\"";
    let effects = run_collect(src).unwrap();
    match &effects[0] {
        StepOutcome::Flush { bytes, .. } => assert_eq!(bytes.as_slice(), b"  hi  \n"),
        other => panic!("expected a flush, got {:?}", other),
    }
}
