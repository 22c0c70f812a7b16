//! Directive recognition: the fixed bracketed tokens and line classification.

use vstd::prelude::*;

use vstd::string::StringSliceAdditionalSpecFns;

use crate::text::has_prefix;
use crate::text::starts_with_bytes;
use crate::text::bytes_eq;

verus! {

/// What one trimmed line means to the engine.
#[derive(Clone, Copy, PartialEq, Eq, Structural, Debug)]
pub enum Dir {
    /// Flush the print buffer; one interval argument.
    Print,
    /// Flush the print buffer with a final newline; one interval argument.
    PrintLine,
    /// The disabled variable feature: the run stops at once.
    Var,
    /// Jump to a 1-based line, at most once per origin line.
    Goto,
    /// Blocking wait; one duration argument.
    Wait,
    /// In-place text substitution on a target line; three arguments.
    Replace,
    /// Remove a 1-based line from the buffer.
    DelLine,
    /// Block until a named key is pressed.
    WaitForInput,
    /// Offer to open a URL.
    OpenUrl,
    /// Play an audio file.
    Audio,
    /// Render an image at the cursor.
    Image,
    /// Set the terminal title.
    Title,
    /// Clear the screen.
    Clear,
    /// Resize the terminal; columns and rows.
    Resize,
    /// Move the cursor; columns and rows.
    MoveCursor,
    /// Hide the cursor.
    HideCursor,
    /// Show the cursor.
    ShowCursor,
    /// Splice another file's lines in place of this line.
    Include,
    /// The rest of the line goes to the print buffer verbatim.
    Escape,
    /// Append a bare newline to the print buffer.
    Empty,
    /// Markers, comments and blank lines: nothing happens.
    Noop,
    /// End the run.
    Exit,
    /// Ordinary text: appended to the print buffer with a newline.
    Literal,
}

pub open spec fn tok_print() -> Seq<u8> {
    "--[PRINT]--".spec_bytes()
}

pub open spec fn tok_print_line() -> Seq<u8> {
    "--[PRINT_LINE]--".spec_bytes()
}

pub open spec fn tok_var() -> Seq<u8> {
    "--[VAR]--".spec_bytes()
}

pub open spec fn tok_goto() -> Seq<u8> {
    "--[GOTO]--".spec_bytes()
}

pub open spec fn tok_marker() -> Seq<u8> {
    "--[MARKER]--".spec_bytes()
}

pub open spec fn tok_wait() -> Seq<u8> {
    "--[WAIT]--".spec_bytes()
}

pub open spec fn tok_replace() -> Seq<u8> {
    "--[REPLACE]--".spec_bytes()
}

pub open spec fn tok_del_line() -> Seq<u8> {
    "--[DEL_LINE]--".spec_bytes()
}

pub open spec fn tok_wait_for_input() -> Seq<u8> {
    "--[WAIT_FOR_INPUT]--".spec_bytes()
}

pub open spec fn tok_open_url() -> Seq<u8> {
    "--[OPEN_URL]--".spec_bytes()
}

pub open spec fn tok_audio() -> Seq<u8> {
    "--[AUDIO]--".spec_bytes()
}

pub open spec fn tok_image() -> Seq<u8> {
    "--[IMAGE]--".spec_bytes()
}

pub open spec fn tok_title() -> Seq<u8> {
    "--[TITLE]--".spec_bytes()
}

pub open spec fn tok_clear() -> Seq<u8> {
    "--[CLEAR]--".spec_bytes()
}

pub open spec fn tok_resize() -> Seq<u8> {
    "--[RESIZE]--".spec_bytes()
}

pub open spec fn tok_move_cursor() -> Seq<u8> {
    "--[MOVE_CURSOR]--".spec_bytes()
}

pub open spec fn tok_hide_cursor() -> Seq<u8> {
    "--[HIDE_CURSOR]--".spec_bytes()
}

pub open spec fn tok_show_cursor() -> Seq<u8> {
    "--[SHOW_CURSOR]--".spec_bytes()
}

pub open spec fn tok_include() -> Seq<u8> {
    "--[INCLUDE]--".spec_bytes()
}

pub open spec fn tok_escape() -> Seq<u8> {
    "--[ESCAPE]--".spec_bytes()
}

pub open spec fn tok_empty() -> Seq<u8> {
    "--[EMPTY]--".spec_bytes()
}

pub open spec fn tok_note() -> Seq<u8> {
    "--[NOTE]--".spec_bytes()
}

pub open spec fn tok_exit() -> Seq<u8> {
    "--[EXIT]--".spec_bytes()
}

/// Classification of one trimmed line, in the order the engine tests the
/// tokens. Argument-taking directives match as a prefix; argument-free ones
/// must be the whole line, so a trailing remark turns them into literal text.
pub open spec fn classify(t: Seq<u8>) -> Dir {
    if has_prefix(t, tok_print()) {
        Dir::Print
    } else if has_prefix(t, tok_print_line()) {
        Dir::PrintLine
    } else if has_prefix(t, tok_var()) {
        Dir::Var
    } else if has_prefix(t, tok_goto()) {
        Dir::Goto
    } else if has_prefix(t, tok_wait()) {
        Dir::Wait
    } else if has_prefix(t, tok_replace()) {
        Dir::Replace
    } else if has_prefix(t, tok_del_line()) {
        Dir::DelLine
    } else if has_prefix(t, tok_wait_for_input()) {
        Dir::WaitForInput
    } else if has_prefix(t, tok_open_url()) {
        Dir::OpenUrl
    } else if has_prefix(t, tok_audio()) {
        Dir::Audio
    } else if has_prefix(t, tok_image()) {
        Dir::Image
    } else if has_prefix(t, tok_title()) {
        Dir::Title
    } else if t == tok_clear() {
        Dir::Clear
    } else if has_prefix(t, tok_resize()) {
        Dir::Resize
    } else if has_prefix(t, tok_move_cursor()) {
        Dir::MoveCursor
    } else if t == tok_hide_cursor() {
        Dir::HideCursor
    } else if t == tok_show_cursor() {
        Dir::ShowCursor
    } else if has_prefix(t, tok_include()) {
        Dir::Include
    } else if has_prefix(t, tok_escape()) {
        Dir::Escape
    } else if t == tok_empty() {
        Dir::Empty
    } else if t.len() == 0 || has_prefix(t, tok_marker()) || has_prefix(t, tok_note()) {
        Dir::Noop
    } else if t == tok_exit() {
        Dir::Exit
    } else {
        Dir::Literal
    }
}

/// Classifies one trimmed line.
pub fn classify_line(t: &[u8]) -> (d: Dir)
    ensures
        d == classify(t@),
{
    if starts_with_bytes(t, "--[PRINT]--".as_bytes()) {
        Dir::Print
    } else if starts_with_bytes(t, "--[PRINT_LINE]--".as_bytes()) {
        Dir::PrintLine
    } else if starts_with_bytes(t, "--[VAR]--".as_bytes()) {
        Dir::Var
    } else if starts_with_bytes(t, "--[GOTO]--".as_bytes()) {
        Dir::Goto
    } else if starts_with_bytes(t, "--[WAIT]--".as_bytes()) {
        Dir::Wait
    } else if starts_with_bytes(t, "--[REPLACE]--".as_bytes()) {
        Dir::Replace
    } else if starts_with_bytes(t, "--[DEL_LINE]--".as_bytes()) {
        Dir::DelLine
    } else if starts_with_bytes(t, "--[WAIT_FOR_INPUT]--".as_bytes()) {
        Dir::WaitForInput
    } else if starts_with_bytes(t, "--[OPEN_URL]--".as_bytes()) {
        Dir::OpenUrl
    } else if starts_with_bytes(t, "--[AUDIO]--".as_bytes()) {
        Dir::Audio
    } else if starts_with_bytes(t, "--[IMAGE]--".as_bytes()) {
        Dir::Image
    } else if starts_with_bytes(t, "--[TITLE]--".as_bytes()) {
        Dir::Title
    } else if bytes_eq(t, "--[CLEAR]--".as_bytes()) {
        Dir::Clear
    } else if starts_with_bytes(t, "--[RESIZE]--".as_bytes()) {
        Dir::Resize
    } else if starts_with_bytes(t, "--[MOVE_CURSOR]--".as_bytes()) {
        Dir::MoveCursor
    } else if bytes_eq(t, "--[HIDE_CURSOR]--".as_bytes()) {
        Dir::HideCursor
    } else if bytes_eq(t, "--[SHOW_CURSOR]--".as_bytes()) {
        Dir::ShowCursor
    } else if starts_with_bytes(t, "--[INCLUDE]--".as_bytes()) {
        Dir::Include
    } else if starts_with_bytes(t, "--[ESCAPE]--".as_bytes()) {
        Dir::Escape
    } else if bytes_eq(t, "--[EMPTY]--".as_bytes()) {
        Dir::Empty
    } else if t.len() == 0 || starts_with_bytes(t, "--[MARKER]--".as_bytes())
        || starts_with_bytes(t, "--[NOTE]--".as_bytes()) {
        Dir::Noop
    } else if bytes_eq(t, "--[EXIT]--".as_bytes()) {
        Dir::Exit
    } else {
        Dir::Literal
    }
}

/// Where the verbatim text of an escape line starts: the token and the one
/// character after it are skipped, bounded by the line's end.
pub open spec fn escape_skip(t: Seq<u8>) -> int {
    if t.len() > tok_escape().len() + 1 {
        tok_escape().len() + 1 as int
    } else {
        t.len() as int
    }
}

pub fn escape_cut(t: &[u8]) -> (r: usize)
    ensures
        r == escape_skip(t@),
        r <= t@.len(),
{
    let tl = "--[ESCAPE]--".as_bytes().len();
    if t.len() > tl {
        tl + 1
    } else {
        t.len()
    }
}

} // verus!
