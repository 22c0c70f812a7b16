//! The marker pre-scan: find and summary modes.

use animessage::markers::{find_marker, marker_summary};
use animessage::InterpreterError;

#[test]
fn find_marker_returns_the_first_matching_line_index() {
    let src = "intro\n--[MARKER]-- \"one\"\ntext\n--[MARKER]-- \"two\"";
    assert_eq!(find_marker(src.as_bytes(), b"two").unwrap(), Some(3));
    assert_eq!(find_marker(src.as_bytes(), b"one").unwrap(), Some(1));
}

#[test]
fn find_marker_reports_absence() {
    let src = "intro\n--[MARKER]-- \"one\"";
    assert_eq!(find_marker(src.as_bytes(), b"missing").unwrap(), None);
}

#[test]
fn find_marker_fails_on_a_malformed_marker_line() {
    let src = "--[MARKER]--\n--[MARKER]-- \"one\"";
    assert_eq!(
        find_marker(src.as_bytes(), b"one").unwrap_err(),
        InterpreterError::ArgCountMismatch {
            received: 0,
            expected: 1
        }
    );
}

#[test]
fn summary_lists_names_with_one_based_line_numbers() {
    let src = "intro\n--[MARKER]-- \"one\"\ntext\n--[MARKER]-- \"two\"";
    let rows = marker_summary(src.as_bytes()).unwrap();
    assert_eq!(rows.len(), 2);
    assert_eq!(rows[0].0.as_slice(), b"one");
    assert_eq!(rows[0].1, 2);
    assert_eq!(rows[1].0.as_slice(), b"two");
    assert_eq!(rows[1].1, 4);
}

#[test]
fn summary_of_a_markerless_script_is_empty() {
    assert!(marker_summary(b"just\ntext").unwrap().is_empty());
}
