//! The marker pre-scan: finding a named marker's line, and summarizing all
//! markers. Markers are directive lines whose single argument is a name; the
//! engine itself treats them as no-ops, so the scan is the only reader.

use vstd::prelude::*;

use crate::directive::tok_marker;
use crate::lexer::Args;
use crate::text::{
    bytes_eq, has_prefix, quoted_args, split_lines, split_lines_spec, starts_with_bytes, views_of,
};
use crate::InterpreterError;

verus! {

/// The scan for a named marker, from line index `i` on: the index of the
/// first marker line whose argument equals the name, an argument-count error
/// on the first malformed marker line met before that, or nothing.
pub open spec fn marker_scan(lines: Seq<Seq<u8>>, name: Seq<u8>, i: int) -> Result<
    Option<int>,
    InterpreterError,
>
    decreases lines.len() - i,
{
    if i < 0 || i >= lines.len() {
        Result::Ok(Option::None)
    } else if has_prefix(lines[i], tok_marker()) {
        if quoted_args(lines[i]).len() != 1 {
            Result::Err(
                InterpreterError::ArgCountMismatch {
                    received: quoted_args(lines[i]).len() as usize,
                    expected: 1,
                },
            )
        } else if quoted_args(lines[i])[0] == name {
            Result::Ok(Option::Some(i))
        } else {
            marker_scan(lines, name, i + 1)
        }
    } else {
        marker_scan(lines, name, i + 1)
    }
}

/// Finds the 0-based line index of the first marker named `marker` in
/// `source`, scanning raw (untrimmed) lines. `Ok(None)` when no marker of
/// that name exists; the lexer's error when a marker line is malformed.
pub fn find_marker(source: &[u8], marker: &[u8]) -> (r: Result<Option<usize>, InterpreterError>)
    ensures
        match r {
            Ok(Some(v)) => marker_scan(split_lines_spec(source@), marker@, 0) == Result::<
                Option<int>,
                InterpreterError,
            >::Ok(Option::Some(v as int)),
            Ok(None) => marker_scan(split_lines_spec(source@), marker@, 0) == Result::<
                Option<int>,
                InterpreterError,
            >::Ok(Option::<int>::None),
            Err(e) => marker_scan(split_lines_spec(source@), marker@, 0) == Result::<
                Option<int>,
                InterpreterError,
            >::Err(e),
        },
{
    let lines = split_lines(source);
    let ghost lv = views_of(lines@);
    let mut i: usize = 0;
    while i < lines.len()
        invariant
            i <= lines@.len(),
            lv == views_of(lines@),
            lv == split_lines_spec(source@),
            marker_scan(lv, marker@, 0) == marker_scan(lv, marker@, i as int),
        decreases lines@.len() - i,
    {
        let line = &lines[i];
        if starts_with_bytes(line.as_slice(), "--[MARKER]--".as_bytes()) {
            let args = match Args::parse(line.as_slice(), 1) {
                Ok(a) => a,
                Err(e) => {
                    return Err(e);
                },
            };
            if bytes_eq(args.get(0).as_slice(), marker) {
                return Ok(Some(i));
            }
        }
        i = i + 1;
    }
    Ok(None)
}

/// The sequence of views of marker summary entries.
pub open spec fn entry_views(v: Seq<(Vec<u8>, usize)>) -> Seq<(Seq<u8>, int)> {
    v.map_values(|p: (Vec<u8>, usize)| (p.0@, p.1 as int))
}

/// The summary of all markers from line index `i` on: for each marker line
/// its name and 1-based line number, in order; an argument-count error on
/// the first malformed marker line.
pub open spec fn summary_scan(lines: Seq<Seq<u8>>, i: int) -> Result<
    Seq<(Seq<u8>, int)>,
    InterpreterError,
>
    decreases lines.len() - i,
{
    if i < 0 || i >= lines.len() {
        Result::Ok(Seq::empty())
    } else if has_prefix(lines[i], tok_marker()) {
        if quoted_args(lines[i]).len() != 1 {
            Result::Err(
                InterpreterError::ArgCountMismatch {
                    received: quoted_args(lines[i]).len() as usize,
                    expected: 1,
                },
            )
        } else {
            match summary_scan(lines, i + 1) {
                Result::Ok(rest) => Result::Ok(seq![(quoted_args(lines[i])[0], i + 1)] + rest),
                Result::Err(e) => Result::Err(e),
            }
        }
    } else {
        summary_scan(lines, i + 1)
    }
}

/// Collects every marker's name and 1-based line number, in order.
pub fn marker_summary(source: &[u8]) -> (r: Result<Vec<(Vec<u8>, usize)>, InterpreterError>)
    ensures
        match r {
            Ok(v) => summary_scan(split_lines_spec(source@), 0) == Result::<
                Seq<(Seq<u8>, int)>,
                InterpreterError,
            >::Ok(entry_views(v@)),
            Err(e) => summary_scan(split_lines_spec(source@), 0) == Result::<
                Seq<(Seq<u8>, int)>,
                InterpreterError,
            >::Err(e),
        },
{
    let lines = split_lines(source);
    let ghost lv = views_of(lines@);
    let mut out: Vec<(Vec<u8>, usize)> = Vec::new();
    let mut i: usize = 0;
    proof {
        assert(entry_views(out@) =~= Seq::<(Seq<u8>, int)>::empty());
    }
    while i < lines.len()
        invariant
            i <= lines@.len(),
            lv == views_of(lines@),
            lv == split_lines_spec(source@),
            match summary_scan(lv, i as int) {
                Result::Ok(rest) => summary_scan(lv, 0) == Result::<
                    Seq<(Seq<u8>, int)>,
                    InterpreterError,
                >::Ok(entry_views(out@) + rest),
                Result::Err(e) => summary_scan(lv, 0) == Result::<
                    Seq<(Seq<u8>, int)>,
                    InterpreterError,
                >::Err(e),
            },
        decreases lines@.len() - i,
    {
        let line = &lines[i];
        if starts_with_bytes(line.as_slice(), "--[MARKER]--".as_bytes()) {
            let args = match Args::parse(line.as_slice(), 1) {
                Ok(a) => a,
                Err(e) => {
                    return Err(e);
                },
            };
            let name = crate::text::copy_whole(args.get(0).as_slice());
            let ghost pre_out = out@;
            out.push((name, i + 1));
            proof {
                let hd = seq![(quoted_args(lv[i as int])[0], i + 1 as int)];
                assert(entry_views(out@) =~= entry_views(pre_out) + hd);
                if summary_scan(lv, i + 1 as int) is Ok {
                    let rest2 = summary_scan(lv, i + 1 as int)->Ok_0;
                    assert(summary_scan(lv, i as int) == Result::<
                        Seq<(Seq<u8>, int)>,
                        InterpreterError,
                    >::Ok(hd + rest2));
                    assert(entry_views(pre_out) + (hd + rest2) =~= (entry_views(pre_out) + hd)
                        + rest2);
                }
            }
        }
        i = i + 1;
    }
    proof {
        assert(summary_scan(lv, i as int) == Result::<Seq<(Seq<u8>, int)>, InterpreterError>::Ok(
            Seq::<(Seq<u8>, int)>::empty(),
        ));
        assert(entry_views(out@) + Seq::<(Seq<u8>, int)>::empty() =~= entry_views(out@));
    }
    Ok(out)
}

} // verus!
