//! The lexer: quoted-argument extraction and the duration argument.

use animessage::lexer::{duration_from_arg, Args, DurationVal};
use animessage::InterpreterError;

#[test]
fn parse_takes_text_between_quote_pairs() {
    let args = Args::parse(b"--[REPLACE]-- \"3\" \"from\" \"to\"", 3).unwrap();
    assert_eq!(args.len(), 3);
    assert_eq!(args.get(0).as_slice(), b"3");
    assert_eq!(args.get(1).as_slice(), b"from");
    assert_eq!(args.get(2).as_slice(), b"to");
}

#[test]
fn parse_discards_text_outside_quotes() {
    let args = Args::parse(b"--[GOTO]-- \"5\" trailing remark", 1).unwrap();
    assert_eq!(args.get(0).as_slice(), b"5");
}

#[test]
fn parse_reports_exact_counts_on_mismatch() {
    let err = Args::parse(b"--[REPLACE]-- \"3\" \"from\"", 3).unwrap_err();
    assert_eq!(
        err,
        InterpreterError::ArgCountMismatch {
            received: 2,
            expected: 3
        }
    );
}

#[test]
fn parse_counts_zero_args_on_bare_directive() {
    let err = Args::parse(b"--[WAIT]--", 1).unwrap_err();
    assert_eq!(
        err,
        InterpreterError::ArgCountMismatch {
            received: 0,
            expected: 1
        }
    );
}

#[test]
fn parse_unbalanced_final_quote_is_not_an_argument() {
    let err = Args::parse(b"--[TITLE]-- \"dangling", 1).unwrap_err();
    assert_eq!(
        err,
        InterpreterError::ArgCountMismatch {
            received: 0,
            expected: 1
        }
    );
    // one complete pair plus an unbalanced tail counts one argument
    let err2 = Args::parse(b"--[REPLACE]-- \"a\" \"tail", 2).unwrap_err();
    assert_eq!(
        err2,
        InterpreterError::ArgCountMismatch {
            received: 1,
            expected: 2
        }
    );
}

#[test]
fn parse_empty_argument_counts() {
    let args = Args::parse(b"--[TITLE]-- \"\"", 1).unwrap();
    assert_eq!(args.get(0).as_slice(), b"");
}

#[test]
fn duration_parses_whole_and_fractional_seconds() {
    assert_eq!(
        duration_from_arg(b"1.5").unwrap(),
        DurationVal {
            secs: 1,
            nanos: 500_000_000
        }
    );
    assert_eq!(
        duration_from_arg(b"0.25").unwrap(),
        DurationVal {
            secs: 0,
            nanos: 250_000_000
        }
    );
}

#[test]
fn duration_accepts_bare_dot_forms_with_a_digit() {
    assert_eq!(
        duration_from_arg(b"1.").unwrap(),
        DurationVal { secs: 1, nanos: 0 }
    );
    assert_eq!(
        duration_from_arg(b".5").unwrap(),
        DurationVal {
            secs: 0,
            nanos: 500_000_000
        }
    );
    assert_eq!(
        duration_from_arg(b"+2.5").unwrap(),
        DurationVal {
            secs: 2,
            nanos: 500_000_000
        }
    );
}

#[test]
fn duration_keeps_nanosecond_precision_and_truncates_beyond() {
    assert_eq!(
        duration_from_arg(b"0.000000001").unwrap(),
        DurationVal { secs: 0, nanos: 1 }
    );
    assert_eq!(
        duration_from_arg(b"0.1234567899").unwrap(),
        DurationVal {
            secs: 0,
            nanos: 123_456_789
        }
    );
}

#[test]
fn duration_rejects_integers_without_a_decimal_point() {
    assert_eq!(
        duration_from_arg(b"0").unwrap_err(),
        InterpreterError::ArgFormatError
    );
    assert_eq!(
        duration_from_arg(b"3").unwrap_err(),
        InterpreterError::ArgFormatError
    );
}

#[test]
fn duration_rejects_text_and_signs_and_bare_dot() {
    assert_eq!(
        duration_from_arg(b"notanumber").unwrap_err(),
        InterpreterError::ArgFormatError
    );
    assert_eq!(
        duration_from_arg(b"-1.0").unwrap_err(),
        InterpreterError::ArgFormatError
    );
    assert_eq!(
        duration_from_arg(b".").unwrap_err(),
        InterpreterError::ArgFormatError
    );
    assert_eq!(
        duration_from_arg(b"+").unwrap_err(),
        InterpreterError::ArgFormatError
    );
    assert_eq!(
        duration_from_arg(b"1.2.3").unwrap_err(),
        InterpreterError::ArgFormatError
    );
}

#[test]
fn duration_rejects_seconds_beyond_the_representable_range() {
    assert_eq!(
        duration_from_arg(b"99999999999999999999.0").unwrap_err(),
        InterpreterError::ArgFormatError
    );
}
