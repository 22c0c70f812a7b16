//! The byte-text utilities underneath the lexer and engine.

use animessage::text::{parse_u16, parse_usize, replace_all, split_lines, trim_bytes};

#[test]
fn replace_all_is_leftmost_and_non_overlapping() {
    assert_eq!(replace_all(b"aaa", b"aa", b"b"), b"ba".to_vec());
    assert_eq!(replace_all(b"abcabc", b"b", b"xy"), b"axycaxyc".to_vec());
    assert_eq!(replace_all(b"abc", b"z", b"y"), b"abc".to_vec());
}

#[test]
fn replace_all_with_an_empty_pattern_inserts_at_every_position() {
    assert_eq!(replace_all(b"abc", b"", b"x"), b"xaxbxcx".to_vec());
    assert_eq!(replace_all(b"", b"", b"x"), b"x".to_vec());
}

#[test]
fn split_lines_handles_terminators_like_text_lines_do() {
    let ls = split_lines(b"a\r\nb\nc");
    assert_eq!(ls.len(), 3);
    assert_eq!(ls[0].as_slice(), b"a");
    assert_eq!(ls[1].as_slice(), b"b");
    assert_eq!(ls[2].as_slice(), b"c");
    assert_eq!(split_lines(b"a\n").len(), 1);
    assert_eq!(split_lines(b"").len(), 0);
    assert_eq!(split_lines(b"\n").len(), 1);
}

#[test]
fn trim_bytes_strips_ascii_whitespace_on_both_ends() {
    assert_eq!(trim_bytes(b"  \t--[X]--\r\n").as_slice(), b"--[X]--");
    assert_eq!(trim_bytes(b"   ").as_slice(), b"");
}

#[test]
fn parse_usize_accepts_a_leading_plus_and_rejects_the_rest() {
    assert_eq!(parse_usize(b"42"), Some(42));
    assert_eq!(parse_usize(b"+42"), Some(42));
    assert_eq!(parse_usize(b""), None);
    assert_eq!(parse_usize(b"+"), None);
    assert_eq!(parse_usize(b"4 2"), None);
    assert_eq!(parse_usize(b"-4"), None);
    assert_eq!(parse_usize(b"99999999999999999999999999"), None);
}

#[test]
fn parse_u16_bounds_the_value() {
    assert_eq!(parse_u16(b"65535"), Some(65535));
    assert_eq!(parse_u16(b"65536"), None);
    assert_eq!(parse_u16(b"0"), Some(0));
}
