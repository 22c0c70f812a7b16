//! The interpreter engine: a program counter over a mutable buffer of lines.
//!
//! One call to [`Engine::step`] executes the line under the counter: it
//! classifies the trimmed line, parses its arguments, performs every buffer
//! and cache mutation itself, and hands any outside work back to the caller
//! as a [`StepOutcome`]. The caller performs the effect (or skips it on a dry
//! run) and steps again. The one effect that feeds data back is the include
//! directive: the engine pauses until [`Engine::splice_include`] hands it the
//! included file's text.

use vstd::pervasive::VecAdditionalExecFns;
use vstd::prelude::*;

use crate::directive::{classify, classify_line, escape_cut, escape_skip, Dir};
use crate::lexer::{dur_arg, duration_from_arg, Args, DurationVal};
use crate::text::{
    append_bytes, ascii_upper, bytes_eq, concat_nl, contains_space, copy_whole, has_space,
    parse_usize, quoted_args, replace_all, replace_bytes, split_lines, split_lines_spec,
    to_ascii_upper, trim_bytes, trimmed, u16_arg, usize_arg, views_of, NL, SLASH,
};
use crate::InterpreterError;

verus! {

/// The outside work one step asks of its caller, if any. The engine has
/// already done all buffer and cache bookkeeping when it hands one out.
#[derive(Clone, PartialEq, Eq, Debug)]
pub enum StepOutcome {
    /// The run is over: the counter ran off the end, an exit directive was
    /// reached, or the disabled variable feature was touched.
    Finished,
    /// The step needed no outside work.
    Quiet,
    /// Write `bytes` to the terminal: all at once when `interval` is zero,
    /// else character by character with `interval` between characters.
    Flush { bytes: Vec<u8>, interval: DurationVal },
    /// Block for the given time.
    Sleep { interval: DurationVal },
    /// Block until the named key is pressed.
    WaitKey { key: Vec<u8> },
    /// Offer to open the URL in a browser.
    OpenUrl { url: Vec<u8> },
    /// Decode the audio file and start playing it in the background.
    Audio { path: Vec<u8> },
    /// Render the image file at the cursor position.
    Image { path: Vec<u8> },
    /// Set the terminal title.
    Title { text: Vec<u8> },
    /// Clear the terminal.
    Clear,
    /// Resize the terminal.
    Resize { columns: u16, rows: u16 },
    /// Move the cursor.
    MoveCursor { columns: usize, rows: usize },
    /// Hide the cursor.
    HideCursor,
    /// Show the cursor.
    ShowCursor,
    /// Read the file at `path` and hand its text to `splice_include`.
    Include { path: Vec<u8> },
}

/// The abstract state of one run: the line buffer, the program counter, the
/// print buffer, the two idempotency caches, the paused-include marker, and
/// the run's configuration.
#[verifier::ext_equal]
pub ghost struct Model {
    /// The line buffer, 0-indexed; user-facing line numbers are index + 1.
    pub lines: Seq<Seq<u8>>,
    /// The program counter: the index of the next line to execute.
    pub pc: int,
    /// Literal text accumulated since the last flush.
    pub buf: Seq<u8>,
    /// 1-based origin line numbers whose jump directive has fired.
    pub gotos: Set<int>,
    /// Per target index, the last substitution pair applied there.
    pub repls: Map<int, (Seq<u8>, Seq<u8>)>,
    /// The path of an include directive waiting for its file's text.
    pub pending: Option<Seq<u8>>,
    /// Whether the run is over.
    pub finished: bool,
    /// Whether relative path arguments are allowed.
    pub rp: bool,
    /// Debug mode: screen-changing directives are suppressed.
    pub dbg: bool,
    /// Dry run: timed, audible and visible effects are suppressed.
    pub ne: bool,
}

/// The set of 1-based line numbers recorded as fired jump origins.
pub open spec fn goto_set(s: Seq<usize>) -> Set<int>
    decreases s.len(),
{
    if s.len() == 0 {
        Set::empty()
    } else {
        goto_set(s.drop_last()).insert(s.last() as int)
    }
}

/// The substitution cache as a map; a later entry for the same target wins.
pub open spec fn repls_map(s: Seq<(usize, Vec<u8>, Vec<u8>)>) -> Map<int, (Seq<u8>, Seq<u8>)>
    decreases s.len(),
{
    if s.len() == 0 {
        Map::empty()
    } else {
        repls_map(s.drop_last()).insert(s.last().0 as int, (s.last().1@, s.last().2@))
    }
}

/// The interpreter engine. See the module documentation.
pub struct Engine {
    lines: Vec<Vec<u8>>,
    pc: usize,
    buf: Vec<u8>,
    gotos: Vec<usize>,
    repls: Vec<(usize, Vec<u8>, Vec<u8>)>,
    pending: Option<Vec<u8>>,
    finished: bool,
    relative_paths_ok: bool,
    debug: bool,
    no_exec: bool,
}

impl View for Engine {
    type V = Model;

    closed spec fn view(&self) -> Model {
        Model {
            lines: views_of(self.lines@),
            pc: self.pc as int,
            buf: self.buf@,
            gotos: goto_set(self.gotos@),
            repls: repls_map(self.repls@),
            pending: match self.pending {
                Some(p) => Some(p@),
                None => None,
            },
            finished: self.finished,
            rp: self.relative_paths_ok,
            dbg: self.debug,
            ne: self.no_exec,
        }
    }
}

/// A model whose paused-include marker, if set, points at a buffer line.
pub open spec fn wf(m: Model) -> bool {
    m.pending is Some ==> 0 <= m.pc < m.lines.len()
}

/// The two states agree on everything but the program counter and the print
/// buffer.
pub open spec fn same_rest(pre: Model, post: Model) -> bool {
    &&& post.lines == pre.lines
    &&& post.gotos == pre.gotos
    &&& post.repls == pre.repls
    &&& post.pending == pre.pending
    &&& post.finished == pre.finished
    &&& post.rp == pre.rp
    &&& post.dbg == pre.dbg
    &&& post.ne == pre.ne
}

/// The state is unchanged but for the counter moving to the next line.
pub open spec fn advanced(pre: Model, post: Model) -> bool {
    same_rest(pre, post) && post.buf == pre.buf && post.pc == pre.pc + 1
}

/// The state is frozen and the run marked over: how every error leaves the
/// engine.
pub open spec fn halted(pre: Model, post: Model) -> bool {
    post =~= Model { finished: true, ..pre }
}

/// A wrong argument count: the run fails with both counts reported.
pub open spec fn count_err(
    pre: Model,
    post: Model,
    r: Result<StepOutcome, InterpreterError>,
    t: Seq<u8>,
    expected: usize,
) -> bool {
    &&& quoted_args(t).len() != expected
    &&& halted(pre, post)
    &&& r == Result::<StepOutcome, InterpreterError>::Err(
        InterpreterError::ArgCountMismatch {
            received: quoted_args(t).len() as usize,
            expected,
        },
    )
}

pub open spec fn fmt_err(pre: Model, post: Model, r: Result<StepOutcome, InterpreterError>) -> bool {
    halted(pre, post) && r == Result::<StepOutcome, InterpreterError>::Err(
        InterpreterError::ArgFormatError,
    )
}

pub open spec fn path_err(pre: Model, post: Model, r: Result<StepOutcome, InterpreterError>) -> bool {
    halted(pre, post) && r == Result::<StepOutcome, InterpreterError>::Err(
        InterpreterError::PathError,
    )
}

/// A path argument is rejected: empty always, relative when the run's policy
/// forbids relative paths. A path is relative when it does not start with a
/// root separator.
pub open spec fn path_rejected(p: Seq<u8>, rp: bool) -> bool {
    p.len() == 0 || (p[0] != SLASH && !rp)
}

/// What one flush emits: the plain print emits the buffer exactly, whatever
/// the interval; the line print appends one newline when the interval is
/// zero, and with a timed interval emits the buffer's lines each followed
/// by one newline.
pub open spec fn render_flush(buf: Seq<u8>, interval: DurationVal, is_line: bool) -> Seq<u8> {
    if !is_line {
        buf
    } else if interval.is_zero() {
        buf + seq![NL]
    } else {
        concat_nl(split_lines_spec(buf))
    }
}

/// The print directives: parse the interval, emit the rendered buffer unless
/// it is empty or the run is dry, and clear the buffer.
pub open spec fn flush_post(
    pre: Model,
    post: Model,
    r: Result<StepOutcome, InterpreterError>,
    t: Seq<u8>,
    is_line: bool,
) -> bool {
    let args = quoted_args(t);
    if args.len() != 1 {
        count_err(pre, post, r, t, 1)
    } else {
        match dur_arg(args[0]) {
            Option::None => fmt_err(pre, post, r),
            Option::Some(dv) => {
                &&& same_rest(pre, post)
                &&& post.pc == pre.pc + 1
                &&& post.buf == Seq::<u8>::empty()
                &&& if pre.buf.len() == 0 || pre.ne {
                    r == Result::<StepOutcome, InterpreterError>::Ok(StepOutcome::Quiet)
                } else {
                    r matches Ok(StepOutcome::Flush { bytes, interval }) && bytes@ == render_flush(
                        pre.buf,
                        dv,
                        is_line,
                    ) && interval == dv
                }
            },
        }
    }
}

/// The jump directive: a 1-based target, taken at most once per origin line.
pub open spec fn goto_post(
    pre: Model,
    post: Model,
    r: Result<StepOutcome, InterpreterError>,
    t: Seq<u8>,
) -> bool {
    let args = quoted_args(t);
    if args.len() != 1 {
        count_err(pre, post, r, t, 1)
    } else {
        match usize_arg(args[0]) {
            Option::None => fmt_err(pre, post, r),
            Option::Some(v) => {
                if v == 0 {
                    fmt_err(pre, post, r)
                } else if pre.gotos.contains(pre.pc + 1) {
                    advanced(pre, post) && r == Result::<StepOutcome, InterpreterError>::Ok(
                        StepOutcome::Quiet,
                    )
                } else {
                    &&& post =~= Model {
                        pc: v - 1,
                        gotos: pre.gotos.insert(pre.pc + 1),
                        ..pre
                    }
                    &&& r == Result::<StepOutcome, InterpreterError>::Ok(StepOutcome::Quiet)
                }
            },
        }
    }
}

/// The substitution directive: on a fresh `(from, to)` pair the target line
/// is rewritten and the pair cached; the identical pair is a no-op.
pub open spec fn replace_post(
    pre: Model,
    post: Model,
    r: Result<StepOutcome, InterpreterError>,
    t: Seq<u8>,
) -> bool {
    let args = quoted_args(t);
    if args.len() != 3 {
        count_err(pre, post, r, t, 3)
    } else {
        match usize_arg(args[0]) {
            Option::None => fmt_err(pre, post, r),
            Option::Some(v) => {
                if v == 0 {
                    fmt_err(pre, post, r)
                } else {
                    let idx = v - 1;
                    if pre.repls.contains_key(idx as int) && pre.repls[idx as int] == (
                    args[1],
                    args[2],
                    ) {
                        advanced(pre, post) && r == Result::<StepOutcome, InterpreterError>::Ok(
                            StepOutcome::Quiet,
                        )
                    } else if idx >= pre.lines.len() {
                        fmt_err(pre, post, r)
                    } else {
                        &&& post =~= Model {
                            pc: pre.pc + 1,
                            lines: pre.lines.update(
                                idx as int,
                                replace_bytes(pre.lines[idx as int], args[1], args[2]),
                            ),
                            repls: pre.repls.insert(idx as int, (args[1], args[2])),
                            ..pre
                        }
                        &&& r == Result::<StepOutcome, InterpreterError>::Ok(StepOutcome::Quiet)
                    }
                }
            },
        }
    }
}

/// The deletion directive: the 1-based target line leaves the buffer and
/// every later line moves up by one.
pub open spec fn del_post(
    pre: Model,
    post: Model,
    r: Result<StepOutcome, InterpreterError>,
    t: Seq<u8>,
) -> bool {
    let args = quoted_args(t);
    if args.len() != 1 {
        count_err(pre, post, r, t, 1)
    } else {
        match usize_arg(args[0]) {
            Option::None => fmt_err(pre, post, r),
            Option::Some(v) => {
                if v == 0 || v - 1 >= pre.lines.len() {
                    fmt_err(pre, post, r)
                } else {
                    &&& post =~= Model { pc: pre.pc + 1, lines: pre.lines.remove(v - 1), ..pre }
                    &&& r == Result::<StepOutcome, InterpreterError>::Ok(StepOutcome::Quiet)
                }
            },
        }
    }
}

/// The key wait: a single-byte key name is folded to upper case; the wait
/// itself is outside work, skipped on a dry run.
pub open spec fn waitkey_post(
    pre: Model,
    post: Model,
    r: Result<StepOutcome, InterpreterError>,
    t: Seq<u8>,
) -> bool {
    let args = quoted_args(t);
    if args.len() != 1 {
        count_err(pre, post, r, t, 1)
    } else {
        let key = if args[0].len() == 1 {
            seq![ascii_upper(args[0][0])]
        } else {
            args[0]
        };
        &&& advanced(pre, post)
        &&& if pre.ne {
            r == Result::<StepOutcome, InterpreterError>::Ok(StepOutcome::Quiet)
        } else {
            r matches Ok(StepOutcome::WaitKey { key: k }) && k@ == key
        }
    }
}

/// The URL directive: a URL holding any ASCII whitespace, or no text at
/// all, is rejected; otherwise the caller is asked to offer it, dry run or
/// not.
pub open spec fn openurl_post(
    pre: Model,
    post: Model,
    r: Result<StepOutcome, InterpreterError>,
    t: Seq<u8>,
) -> bool {
    let args = quoted_args(t);
    if args.len() != 1 {
        count_err(pre, post, r, t, 1)
    } else if has_space(args[0]) || args[0].len() == 0 {
        fmt_err(pre, post, r)
    } else {
        &&& advanced(pre, post)
        &&& r matches Ok(StepOutcome::OpenUrl { url }) && url@ == args[0]
    }
}

/// The audio directive: the path checked against the path policy, the
/// decode-and-play handed out, dry run or not (playback is the caller's to
/// skip).
pub open spec fn audio_post(
    pre: Model,
    post: Model,
    r: Result<StepOutcome, InterpreterError>,
    t: Seq<u8>,
) -> bool {
    let args = quoted_args(t);
    if args.len() != 1 {
        count_err(pre, post, r, t, 1)
    } else if path_rejected(args[0], pre.rp) {
        path_err(pre, post, r)
    } else {
        &&& advanced(pre, post)
        &&& r matches Ok(StepOutcome::Audio { path }) && path@ == args[0]
    }
}

/// The image directive: as audio, but a dry run renders nothing.
pub open spec fn image_post(
    pre: Model,
    post: Model,
    r: Result<StepOutcome, InterpreterError>,
    t: Seq<u8>,
) -> bool {
    let args = quoted_args(t);
    if args.len() != 1 {
        count_err(pre, post, r, t, 1)
    } else if path_rejected(args[0], pre.rp) {
        path_err(pre, post, r)
    } else {
        &&& advanced(pre, post)
        &&& if pre.ne {
            r == Result::<StepOutcome, InterpreterError>::Ok(StepOutcome::Quiet)
        } else {
            r matches Ok(StepOutcome::Image { path }) && path@ == args[0]
        }
    }
}

/// The include directive: the path checked, then the engine pauses with the
/// counter still on the directive line until the file's text arrives.
pub open spec fn include_post(
    pre: Model,
    post: Model,
    r: Result<StepOutcome, InterpreterError>,
    t: Seq<u8>,
) -> bool {
    let args = quoted_args(t);
    if args.len() != 1 {
        count_err(pre, post, r, t, 1)
    } else if path_rejected(args[0], pre.rp) {
        path_err(pre, post, r)
    } else {
        &&& post =~= Model { pending: Some(args[0]), ..pre }
        &&& r matches Ok(StepOutcome::Include { path }) && path@ == args[0]
    }
}

/// The title directive: handed out even on a dry run.
pub open spec fn title_post(
    pre: Model,
    post: Model,
    r: Result<StepOutcome, InterpreterError>,
    t: Seq<u8>,
) -> bool {
    let args = quoted_args(t);
    if args.len() != 1 {
        count_err(pre, post, r, t, 1)
    } else {
        &&& advanced(pre, post)
        &&& r matches Ok(StepOutcome::Title { text }) && text@ == args[0]
    }
}

/// The resize directive: two 16-bit numbers, the effect skipped on a dry run.
pub open spec fn resize_post(
    pre: Model,
    post: Model,
    r: Result<StepOutcome, InterpreterError>,
    t: Seq<u8>,
) -> bool {
    let args = quoted_args(t);
    if args.len() != 2 {
        count_err(pre, post, r, t, 2)
    } else {
        match (u16_arg(args[0]), u16_arg(args[1])) {
            (Option::Some(c), Option::Some(w)) => {
                &&& advanced(pre, post)
                &&& if pre.ne {
                    r == Result::<StepOutcome, InterpreterError>::Ok(StepOutcome::Quiet)
                } else {
                    r matches Ok(StepOutcome::Resize { columns, rows }) && columns == c && rows == w
                }
            },
            _ => fmt_err(pre, post, r),
        }
    }
}

/// The cursor move: two numbers, suppressed in debug mode. The terminal
/// addresses the cursor 1-based, so a coordinate at the very top of the
/// machine's range cannot be represented and is rejected.
pub open spec fn movecursor_post(
    pre: Model,
    post: Model,
    r: Result<StepOutcome, InterpreterError>,
    t: Seq<u8>,
) -> bool {
    let args = quoted_args(t);
    if args.len() != 2 {
        count_err(pre, post, r, t, 2)
    } else {
        match (usize_arg(args[0]), usize_arg(args[1])) {
            (Option::Some(c), Option::Some(w)) => {
                if c >= usize::MAX || w >= usize::MAX {
                    fmt_err(pre, post, r)
                } else {
                    &&& advanced(pre, post)
                    &&& if pre.dbg {
                        r == Result::<StepOutcome, InterpreterError>::Ok(StepOutcome::Quiet)
                    } else {
                        r matches Ok(StepOutcome::MoveCursor { columns, rows }) && columns == c
                            && rows == w
                    }
                }
            },
            _ => fmt_err(pre, post, r),
        }
    }
}

/// The wait directive: the parsed duration handed out, skipped on a dry run.
pub open spec fn wait_post(
    pre: Model,
    post: Model,
    r: Result<StepOutcome, InterpreterError>,
    t: Seq<u8>,
) -> bool {
    let args = quoted_args(t);
    if args.len() != 1 {
        count_err(pre, post, r, t, 1)
    } else {
        match dur_arg(args[0]) {
            Option::None => fmt_err(pre, post, r),
            Option::Some(dv) => {
                &&& advanced(pre, post)
                &&& if pre.ne {
                    r == Result::<StepOutcome, InterpreterError>::Ok(StepOutcome::Quiet)
                } else {
                    r matches Ok(StepOutcome::Sleep { interval }) && interval == dv
                }
            },
        }
    }
}

/// The buffer grows by `tail`, the counter advances, nothing else changes.
pub open spec fn appended(pre: Model, post: Model, tail: Seq<u8>) -> bool {
    same_rest(pre, post) && post.pc == pre.pc + 1 && post.buf == pre.buf + tail
}

/// The full transition relation of one step, by the classification of the
/// trimmed line under the counter.
pub open spec fn dispatch_post(
    pre: Model,
    post: Model,
    r: Result<StepOutcome, InterpreterError>,
) -> bool {
    let raw = pre.lines[pre.pc];
    let t = trimmed(raw);
    let quiet = Result::<StepOutcome, InterpreterError>::Ok(StepOutcome::Quiet);
    match classify(t) {
        Dir::Print => flush_post(pre, post, r, t, false),
        Dir::PrintLine => flush_post(pre, post, r, t, true),
        Dir::Var => halted(pre, post) && r == Result::<StepOutcome, InterpreterError>::Ok(
            StepOutcome::Finished,
        ),
        Dir::Goto => goto_post(pre, post, r, t),
        Dir::Wait => wait_post(pre, post, r, t),
        Dir::Replace => replace_post(pre, post, r, t),
        Dir::DelLine => del_post(pre, post, r, t),
        Dir::WaitForInput => waitkey_post(pre, post, r, t),
        Dir::OpenUrl => openurl_post(pre, post, r, t),
        Dir::Audio => audio_post(pre, post, r, t),
        Dir::Image => image_post(pre, post, r, t),
        Dir::Title => title_post(pre, post, r, t),
        Dir::Clear => advanced(pre, post) && r == Result::<StepOutcome, InterpreterError>::Ok(
            if pre.dbg {
                StepOutcome::Quiet
            } else {
                StepOutcome::Clear
            },
        ),
        Dir::Resize => resize_post(pre, post, r, t),
        Dir::MoveCursor => movecursor_post(pre, post, r, t),
        Dir::HideCursor => advanced(pre, post) && r == Result::<StepOutcome, InterpreterError>::Ok(
            if pre.ne {
                StepOutcome::Quiet
            } else {
                StepOutcome::HideCursor
            },
        ),
        Dir::ShowCursor => advanced(pre, post) && r == Result::<StepOutcome, InterpreterError>::Ok(
            if pre.ne {
                StepOutcome::Quiet
            } else {
                StepOutcome::ShowCursor
            },
        ),
        Dir::Include => include_post(pre, post, r, t),
        Dir::Escape => appended(pre, post, t.skip(escape_skip(t)) + seq![NL]) && r == quiet,
        Dir::Empty => appended(pre, post, seq![NL]) && r == quiet,
        Dir::Noop => advanced(pre, post) && r == quiet,
        Dir::Exit => halted(pre, post) && r == Result::<StepOutcome, InterpreterError>::Ok(
            StepOutcome::Finished,
        ),
        Dir::Literal => appended(pre, post, raw + seq![NL]) && r == quiet,
    }
}

/// Everything one step may do, including the boundary states: a paused
/// include re-requests its file, a finished run stays finished, a counter
/// past the end finishes the run.
pub open spec fn step_post(
    pre: Model,
    post: Model,
    r: Result<StepOutcome, InterpreterError>,
) -> bool {
    if pre.pending is Some {
        &&& post =~= pre
        &&& r matches Ok(StepOutcome::Include { path }) && Some(path@) == pre.pending
    } else if pre.finished {
        post =~= pre && r == Result::<StepOutcome, InterpreterError>::Ok(StepOutcome::Finished)
    } else if pre.pc >= pre.lines.len() {
        halted(pre, post) && r == Result::<StepOutcome, InterpreterError>::Ok(StepOutcome::Finished)
    } else {
        dispatch_post(pre, post, r)
    }
}

/// What `splice_include` does: the directive line leaves the buffer, the
/// included lines take its place, and the counter stays on the first of
/// them, so the next step enters the spliced block.
pub open spec fn splice_post(pre: Model, post: Model, text: Seq<u8>) -> bool {
    &&& post.lines == pre.lines.take(pre.pc) + split_lines_spec(text) + pre.lines.skip(pre.pc + 1)
    &&& post.pc == pre.pc
    &&& post.pending is None
    &&& post.buf == pre.buf
    &&& post.gotos == pre.gotos
    &&& post.repls == pre.repls
    &&& post.finished == pre.finished
    &&& post.rp == pre.rp
    &&& post.dbg == pre.dbg
    &&& post.ne == pre.ne
}

impl Engine {
    /// A fresh run over `source`, starting at the 0-based `start_index`
    /// (as a marker pre-scan supplies it, or 0).
    pub fn new(
        source: &[u8],
        relative_paths_ok: bool,
        debug: bool,
        no_exec: bool,
        start_index: usize,
    ) -> (r: Engine)
        ensures
            r@ =~= (Model {
                lines: split_lines_spec(source@),
                pc: start_index as int,
                buf: Seq::empty(),
                gotos: Set::empty(),
                repls: Map::empty(),
                pending: None,
                finished: false,
                rp: relative_paths_ok,
                dbg: debug,
                ne: no_exec,
            }),
            wf(r@),
    {
        let lines = split_lines(source);
        Engine {
            lines,
            pc: start_index,
            buf: Vec::new(),
            gotos: Vec::new(),
            repls: Vec::new(),
            pending: None,
            finished: false,
            relative_paths_ok,
            debug,
            no_exec,
        }
    }

    /// Whether the run is over.
    pub fn is_finished(&self) -> (r: bool)
        ensures
            r == self@.finished,
    {
        self.finished
    }

    /// The program counter.
    pub fn counter(&self) -> (r: usize)
        ensures
            r == self@.pc,
    {
        self.pc
    }

    /// How many lines the buffer holds now.
    pub fn line_count(&self) -> (r: usize)
        ensures
            r == self@.lines.len(),
    {
        self.lines.len()
    }

    /// The line at `index`.
    pub fn line_at(&self, index: usize) -> (r: &Vec<u8>)
        requires
            index < self@.lines.len(),
        ensures
            r@ == self@.lines[index as int],
    {
        &self.lines[index]
    }

    /// The print buffer as it stands.
    pub fn print_buffer(&self) -> (r: &Vec<u8>)
        ensures
            r@ == self@.buf,
    {
        &self.buf
    }

    /// Hands the engine the text of the file a paused include directive
    /// asked for. The directive line is removed, the file's lines spliced in
    /// at its place, and execution resumes at the first spliced line.
    pub fn splice_include(&mut self, text: &[u8])
        requires
            old(self)@.pending is Some,
            wf(old(self)@),
        ensures
            splice_post(old(self)@, final(self)@, text@),
            wf(final(self)@),
    {
        self.pending = None;
        let ghost pre_lines = views_of(self.lines@);
        let mut tail = self.lines.split_off(self.pc);
        tail.remove(0);
        let mut inc = split_lines(text);
        let ghost front = self.lines@;
        let ghost incg = inc@;
        self.lines.append(&mut inc);
        let ghost mid = self.lines@;
        let ghost tailg = tail@;
        self.lines.append(&mut tail);
        proof {
            assert(mid == front + incg);
            assert(self.lines@ == (front + incg) + tailg);
            crate::text::lemma_views_concat(front + incg, tailg);
            crate::text::lemma_views_concat(front, incg);
            assert(views_of(front) =~= pre_lines.take(old(self).pc as int));
            assert(views_of(tailg) =~= pre_lines.skip(old(self).pc + 1)) by {
                assert(tailg.len() == pre_lines.len() - old(self).pc - 1);
                assert forall|k: int| 0 <= k < tailg.len() implies views_of(tailg)[k]
                    == pre_lines.skip(old(self).pc + 1)[k] by {}
            }
            assert(views_of(self.lines@) =~= pre_lines.take(old(self).pc as int)
                + split_lines_spec(text@) + pre_lines.skip(old(self).pc + 1));
        }
    }
}

/// Whether the fired-jump cache holds the 1-based line number `ln`.
fn goto_seen(v: &Vec<usize>, ln: usize) -> (r: bool)
    ensures
        r == goto_set(v@).contains(ln as int),
{
    let mut i: usize = 0;
    while i < v.len()
        invariant
            i <= v@.len(),
            forall|k: int| 0 <= k < i ==> v@[k] != ln,
        decreases v@.len() - i,
    {
        if v[i] == ln {
            proof {
                lemma_goto_set_contains(v@, ln);
            }
            return true;
        }
        i = i + 1;
    }
    proof {
        lemma_goto_set_contains(v@, ln);
    }
    false
}

proof fn lemma_goto_set_contains(s: Seq<usize>, x: usize)
    ensures
        goto_set(s).contains(x as int) <==> exists|i: int| 0 <= i < s.len() && s[i] == x,
    decreases s.len(),
{
    if s.len() > 0 {
        lemma_goto_set_contains(s.drop_last(), x);
        if s.last() == x {
            assert(s[s.len() - 1] == x);
        } else if goto_set(s).contains(x as int) {
            let i = choose|i: int| 0 <= i < s.drop_last().len() && s.drop_last()[i] == x;
            assert(s[i] == x);
        } else {
            assert forall|i: int| 0 <= i < s.len() implies s[i] != x by {
                if i < s.len() - 1 {
                    assert(s.drop_last()[i] == s[i]);
                }
            }
        }
    }
}

/// Records the 1-based line number `ln` as a fired jump origin.
fn goto_record(v: &mut Vec<usize>, ln: usize)
    ensures
        goto_set(final(v)@) == goto_set(old(v)@).insert(ln as int),
{
    v.push(ln);
    proof {
        assert(v@.drop_last() =~= old(v)@);
    }
}

/// Whether the substitution cache's entry for `idx` is exactly this pair.
fn repl_matches(v: &Vec<(usize, Vec<u8>, Vec<u8>)>, idx: usize, from: &Vec<u8>, to: &Vec<u8>) -> (r:
    bool)
    ensures
        r == (repls_map(v@).contains_key(idx as int) && repls_map(v@)[idx as int] == (from@, to@)),
{
    let mut i: usize = v.len();
    proof {
        assert(v@.take(v@.len() as int) =~= v@);
    }
    while i > 0
        invariant
            i <= v@.len(),
            repls_map(v@).contains_key(idx as int) == repls_map(v@.take(i as int)).contains_key(
                idx as int,
            ),
            repls_map(v@).contains_key(idx as int) ==> repls_map(v@)[idx as int] == repls_map(
                v@.take(i as int),
            )[idx as int],
        decreases i,
    {
        proof {
            assert(v@.take(i as int).drop_last() =~= v@.take(i - 1));
            assert(v@.take(i as int).last() == v@[i - 1]);
        }
        let entry = &v[i - 1];
        if entry.0 == idx {
            let hit = bytes_eq(entry.1.as_slice(), from.as_slice()) && bytes_eq(
                entry.2.as_slice(),
                to.as_slice(),
            );
            return hit;
        }
        i = i - 1;
    }
    proof {
        assert(v@.take(0) =~= Seq::<(usize, Vec<u8>, Vec<u8>)>::empty());
    }
    false
}

/// Caches `(from, to)` as the last pair applied to `idx`.
fn repl_record(v: &mut Vec<(usize, Vec<u8>, Vec<u8>)>, idx: usize, from: Vec<u8>, to: Vec<u8>)
    ensures
        repls_map(final(v)@) == repls_map(old(v)@).insert(idx as int, (from@, to@)),
{
    let ghost f = from@;
    let ghost t = to@;
    v.push((idx, from, to));
    proof {
        assert(v@.drop_last() =~= old(v)@);
        assert(v@.last().0 == idx && v@.last().1@ == f && v@.last().2@ == t);
    }
}

/// The bytes one flush writes, per [`render_flush`].
fn render_exec(buf: &[u8], interval: DurationVal, is_line: bool) -> (r: Vec<u8>)
    ensures
        r@ == render_flush(buf@, interval, is_line),
{
    if !is_line {
        copy_whole(buf)
    } else if interval.secs == 0 && interval.nanos == 0 {
        let mut out = copy_whole(buf);
        out.push(NL);
        proof {
            assert(out@ =~= buf@ + seq![NL]);
        }
        out
    } else {
        let ls = split_lines(buf);
        let ghost lsv = views_of(ls@);
        let mut out: Vec<u8> = Vec::new();
        let mut i: usize = 0;
        proof {
            assert(lsv.skip(0) =~= lsv);
            assert(out@ + concat_nl(lsv) =~= concat_nl(lsv));
        }
        while i < ls.len()
            invariant
                i <= ls@.len(),
                lsv == views_of(ls@),
                out@ + concat_nl(lsv.skip(i as int)) =~= concat_nl(lsv),
            decreases ls@.len() - i,
        {
            let ghost pre_out = out@;
            append_bytes(&mut out, ls[i].as_slice());
            out.push(NL);
            proof {
                assert(lsv.skip(i as int)[0] == lsv[i as int]);
                assert(lsv.skip(i as int).skip(1) =~= lsv.skip(i + 1));
                assert(out@ =~= pre_out + lsv[i as int] + seq![NL]);
                assert(concat_nl(lsv.skip(i as int)) =~= lsv[i as int] + seq![NL] + concat_nl(
                    lsv.skip(i + 1),
                ));
                assert(out@ + concat_nl(lsv.skip(i + 1)) =~= concat_nl(lsv));
            }
            i = i + 1;
        }
        proof {
            assert(lsv.skip(i as int).len() == 0);
            assert(concat_nl(lsv.skip(i as int)) =~= Seq::<u8>::empty());
            assert(out@ =~= out@ + Seq::<u8>::empty());
        }
        out
    }
}

/// Whether a path argument is rejected under the run's path policy.
fn path_rejected_exec(p: &[u8], rp: bool) -> (r: bool)
    ensures
        r == path_rejected(p@, rp),
{
    p.len() == 0 || (p[0] != SLASH && !rp)
}

impl Engine {
    /// Freezes the state and marks the run over, the way every fatal error
    /// leaves the engine.
    fn halt(&mut self)
        ensures
            halted(old(self)@, final(self)@),
            final(self)@.pending == old(self)@.pending,
            final(self)@.pc == old(self)@.pc,
            final(self)@.lines == old(self)@.lines,
    {
        self.finished = true;
    }

    /// Executes the line under the counter. See the module documentation.
    pub fn step(&mut self) -> (r: Result<StepOutcome, InterpreterError>)
        requires
            wf(old(self)@),
        ensures
            step_post(old(self)@, final(self)@, r),
            wf(final(self)@),
    {
        match &self.pending {
            Some(p) => {
                let path = copy_whole(p.as_slice());
                return Ok(StepOutcome::Include { path });
            },
            None => {},
        }
        if self.finished {
            return Ok(StepOutcome::Finished);
        }
        if self.pc >= self.lines.len() {
            self.finished = true;
            return Ok(StepOutcome::Finished);
        }
        let t = trim_bytes(self.lines[self.pc].as_slice());
        let d = classify_line(t.as_slice());
        match d {
            Dir::Print => self.do_flush(&t, false),
            Dir::PrintLine => self.do_flush(&t, true),
            Dir::Var => {
                self.halt();
                Ok(StepOutcome::Finished)
            },
            Dir::Goto => self.do_goto(&t),
            Dir::Wait => self.do_wait(&t),
            Dir::Replace => self.do_replace(&t),
            Dir::DelLine => self.do_del_line(&t),
            Dir::WaitForInput => self.do_wait_for_input(&t),
            Dir::OpenUrl => self.do_open_url(&t),
            Dir::Audio => self.do_audio(&t),
            Dir::Image => self.do_image(&t),
            Dir::Title => self.do_title(&t),
            Dir::Clear => {
                let out = if self.debug {
                    StepOutcome::Quiet
                } else {
                    StepOutcome::Clear
                };
                proof {
            assert(old(self).lines.len() == old(self).lines@.len());
        }
        self.pc = self.pc + 1;
                Ok(out)
            },
            Dir::Resize => self.do_resize(&t),
            Dir::MoveCursor => self.do_move_cursor(&t),
            Dir::HideCursor => {
                let out = if self.no_exec {
                    StepOutcome::Quiet
                } else {
                    StepOutcome::HideCursor
                };
                proof {
            assert(old(self).lines.len() == old(self).lines@.len());
        }
        self.pc = self.pc + 1;
                Ok(out)
            },
            Dir::ShowCursor => {
                let out = if self.no_exec {
                    StepOutcome::Quiet
                } else {
                    StepOutcome::ShowCursor
                };
                proof {
            assert(old(self).lines.len() == old(self).lines@.len());
        }
        self.pc = self.pc + 1;
                Ok(out)
            },
            Dir::Include => self.do_include(&t),
            Dir::Escape => self.do_escape(&t),
            Dir::Empty => {
                self.buf.push(NL);
                proof {
            assert(old(self).lines.len() == old(self).lines@.len());
        }
        self.pc = self.pc + 1;
                proof {
                    assert(self.buf@ =~= old(self)@.buf + seq![NL]);
                }
                Ok(StepOutcome::Quiet)
            },
            Dir::Noop => {
                proof {
            assert(old(self).lines.len() == old(self).lines@.len());
        }
        self.pc = self.pc + 1;
                Ok(StepOutcome::Quiet)
            },
            Dir::Exit => {
                self.halt();
                Ok(StepOutcome::Finished)
            },
            Dir::Literal => {
                let raw = copy_whole(self.lines[self.pc].as_slice());
                append_bytes(&mut self.buf, raw.as_slice());
                self.buf.push(NL);
                proof {
            assert(old(self).lines.len() == old(self).lines@.len());
        }
        self.pc = self.pc + 1;
                proof {
                    assert(self.buf@ =~= old(self)@.buf + (old(self)@.lines[old(self)@.pc]
                        + seq![NL]));
                }
                Ok(StepOutcome::Quiet)
            },
        }
    }

    fn do_flush(&mut self, t: &Vec<u8>, is_line: bool) -> (r: Result<
        StepOutcome,
        InterpreterError,
    >)
        requires
            wf(old(self)@),
            old(self)@.pending is None,
            !old(self)@.finished,
            0 <= old(self)@.pc < old(self)@.lines.len(),
        ensures
            flush_post(old(self)@, final(self)@, r, t@, is_line),
            wf(final(self)@),
    {
        let args = match Args::parse(t.as_slice(), 1) {
            Ok(a) => a,
            Err(e) => {
                self.halt();
                return Err(e);
            },
        };
        let interval = match duration_from_arg(args.get(0).as_slice()) {
            Ok(v) => v,
            Err(e) => {
                self.halt();
                return Err(e);
            },
        };
        let out = if !self.buf.is_empty() && !self.no_exec {
            let bytes = render_exec(self.buf.as_slice(), interval, is_line);
            StepOutcome::Flush { bytes, interval }
        } else {
            StepOutcome::Quiet
        };
        self.buf.clear();
        proof {
            assert(old(self).lines.len() == old(self).lines@.len());
        }
        self.pc = self.pc + 1;
        proof {
            assert(self.buf@ =~= Seq::<u8>::empty());
        }
        Ok(out)
    }

    fn do_goto(&mut self, t: &Vec<u8>) -> (r: Result<StepOutcome, InterpreterError>)
        requires
            wf(old(self)@),
            old(self)@.pending is None,
            !old(self)@.finished,
            0 <= old(self)@.pc < old(self)@.lines.len(),
        ensures
            goto_post(old(self)@, final(self)@, r, t@),
            wf(final(self)@),
    {
        let args = match Args::parse(t.as_slice(), 1) {
            Ok(a) => a,
            Err(e) => {
                self.halt();
                return Err(e);
            },
        };
        let v = match parse_usize(args.get(0).as_slice()) {
            Some(v) => v,
            None => {
                self.halt();
                return Err(InterpreterError::ArgFormatError);
            },
        };
        if v == 0 {
            self.halt();
            return Err(InterpreterError::ArgFormatError);
        }
        proof {
            assert(old(self).lines.len() == old(self).lines@.len());
        }
        let ln = self.pc + 1;
        if goto_seen(&self.gotos, ln) {
            proof {
            assert(old(self).lines.len() == old(self).lines@.len());
        }
        self.pc = self.pc + 1;
            Ok(StepOutcome::Quiet)
        } else {
            goto_record(&mut self.gotos, ln);
            self.pc = v - 1;
            Ok(StepOutcome::Quiet)
        }
    }

    fn do_wait(&mut self, t: &Vec<u8>) -> (r: Result<StepOutcome, InterpreterError>)
        requires
            wf(old(self)@),
            old(self)@.pending is None,
            !old(self)@.finished,
            0 <= old(self)@.pc < old(self)@.lines.len(),
        ensures
            wait_post(old(self)@, final(self)@, r, t@),
            wf(final(self)@),
    {
        let args = match Args::parse(t.as_slice(), 1) {
            Ok(a) => a,
            Err(e) => {
                self.halt();
                return Err(e);
            },
        };
        let interval = match duration_from_arg(args.get(0).as_slice()) {
            Ok(v) => v,
            Err(e) => {
                self.halt();
                return Err(e);
            },
        };
        proof {
            assert(old(self).lines.len() == old(self).lines@.len());
        }
        self.pc = self.pc + 1;
        if self.no_exec {
            Ok(StepOutcome::Quiet)
        } else {
            Ok(StepOutcome::Sleep { interval })
        }
    }

    fn do_replace(&mut self, t: &Vec<u8>) -> (r: Result<StepOutcome, InterpreterError>)
        requires
            wf(old(self)@),
            old(self)@.pending is None,
            !old(self)@.finished,
            0 <= old(self)@.pc < old(self)@.lines.len(),
        ensures
            replace_post(old(self)@, final(self)@, r, t@),
            wf(final(self)@),
    {
        let args = match Args::parse(t.as_slice(), 3) {
            Ok(a) => a,
            Err(e) => {
                self.halt();
                return Err(e);
            },
        };
        let v = match parse_usize(args.get(0).as_slice()) {
            Some(v) => v,
            None => {
                self.halt();
                return Err(InterpreterError::ArgFormatError);
            },
        };
        if v == 0 {
            self.halt();
            return Err(InterpreterError::ArgFormatError);
        }
        let idx = v - 1;
        if repl_matches(&self.repls, idx, args.get(1), args.get(2)) {
            proof {
            assert(old(self).lines.len() == old(self).lines@.len());
        }
        self.pc = self.pc + 1;
            return Ok(StepOutcome::Quiet);
        }
        if idx >= self.lines.len() {
            self.halt();
            return Err(InterpreterError::ArgFormatError);
        }
        let rewritten = replace_all(
            self.lines[idx].as_slice(),
            args.get(1).as_slice(),
            args.get(2).as_slice(),
        );
        let ghost pre_lines = views_of(self.lines@);
        self.lines.set(idx, rewritten);
        proof {
            assert(views_of(self.lines@) =~= pre_lines.update(
                idx as int,
                replace_bytes(
                    pre_lines[idx as int],
                    quoted_args(t@)[1],
                    quoted_args(t@)[2],
                ),
            ));
        }
        let from_copy = copy_whole(args.get(1).as_slice());
        let to_copy = copy_whole(args.get(2).as_slice());
        repl_record(&mut self.repls, idx, from_copy, to_copy);
        proof {
            assert(old(self).lines.len() == old(self).lines@.len());
        }
        self.pc = self.pc + 1;
        Ok(StepOutcome::Quiet)
    }

    fn do_del_line(&mut self, t: &Vec<u8>) -> (r: Result<StepOutcome, InterpreterError>)
        requires
            wf(old(self)@),
            old(self)@.pending is None,
            !old(self)@.finished,
            0 <= old(self)@.pc < old(self)@.lines.len(),
        ensures
            del_post(old(self)@, final(self)@, r, t@),
            wf(final(self)@),
    {
        let args = match Args::parse(t.as_slice(), 1) {
            Ok(a) => a,
            Err(e) => {
                self.halt();
                return Err(e);
            },
        };
        let v = match parse_usize(args.get(0).as_slice()) {
            Some(v) => v,
            None => {
                self.halt();
                return Err(InterpreterError::ArgFormatError);
            },
        };
        if v == 0 || v - 1 >= self.lines.len() {
            self.halt();
            return Err(InterpreterError::ArgFormatError);
        }
        let ghost pre_lines = views_of(self.lines@);
        self.lines.remove(v - 1);
        proof {
            assert(views_of(self.lines@) =~= pre_lines.remove(v - 1));
        }
        proof {
            assert(old(self).lines.len() == old(self).lines@.len());
        }
        self.pc = self.pc + 1;
        Ok(StepOutcome::Quiet)
    }

    fn do_wait_for_input(&mut self, t: &Vec<u8>) -> (r: Result<StepOutcome, InterpreterError>)
        requires
            wf(old(self)@),
            old(self)@.pending is None,
            !old(self)@.finished,
            0 <= old(self)@.pc < old(self)@.lines.len(),
        ensures
            waitkey_post(old(self)@, final(self)@, r, t@),
            wf(final(self)@),
    {
        let args = match Args::parse(t.as_slice(), 1) {
            Ok(a) => a,
            Err(e) => {
                self.halt();
                return Err(e);
            },
        };
        proof {
            assert(old(self).lines.len() == old(self).lines@.len());
        }
        self.pc = self.pc + 1;
        if self.no_exec {
            return Ok(StepOutcome::Quiet);
        }
        let arg = args.get(0);
        let key: Vec<u8> = if arg.len() == 1 {
            let mut k: Vec<u8> = Vec::new();
            k.push(to_ascii_upper(arg[0]));
            proof {
                assert(k@ =~= seq![ascii_upper(quoted_args(t@)[0][0])]);
            }
            k
        } else {
            copy_whole(arg.as_slice())
        };
        Ok(StepOutcome::WaitKey { key })
    }

    fn do_open_url(&mut self, t: &Vec<u8>) -> (r: Result<StepOutcome, InterpreterError>)
        requires
            wf(old(self)@),
            old(self)@.pending is None,
            !old(self)@.finished,
            0 <= old(self)@.pc < old(self)@.lines.len(),
        ensures
            openurl_post(old(self)@, final(self)@, r, t@),
            wf(final(self)@),
    {
        let args = match Args::parse(t.as_slice(), 1) {
            Ok(a) => a,
            Err(e) => {
                self.halt();
                return Err(e);
            },
        };
        let arg = args.get(0);
        if contains_space(arg.as_slice()) || arg.len() == 0 {
            self.halt();
            return Err(InterpreterError::ArgFormatError);
        }
        let url = copy_whole(arg.as_slice());
        proof {
            assert(old(self).lines.len() == old(self).lines@.len());
        }
        self.pc = self.pc + 1;
        Ok(StepOutcome::OpenUrl { url })
    }

    fn do_audio(&mut self, t: &Vec<u8>) -> (r: Result<StepOutcome, InterpreterError>)
        requires
            wf(old(self)@),
            old(self)@.pending is None,
            !old(self)@.finished,
            0 <= old(self)@.pc < old(self)@.lines.len(),
        ensures
            audio_post(old(self)@, final(self)@, r, t@),
            wf(final(self)@),
    {
        let args = match Args::parse(t.as_slice(), 1) {
            Ok(a) => a,
            Err(e) => {
                self.halt();
                return Err(e);
            },
        };
        let arg = args.get(0);
        if path_rejected_exec(arg.as_slice(), self.relative_paths_ok) {
            self.halt();
            return Err(InterpreterError::PathError);
        }
        let path = copy_whole(arg.as_slice());
        proof {
            assert(old(self).lines.len() == old(self).lines@.len());
        }
        self.pc = self.pc + 1;
        Ok(StepOutcome::Audio { path })
    }

    fn do_image(&mut self, t: &Vec<u8>) -> (r: Result<StepOutcome, InterpreterError>)
        requires
            wf(old(self)@),
            old(self)@.pending is None,
            !old(self)@.finished,
            0 <= old(self)@.pc < old(self)@.lines.len(),
        ensures
            image_post(old(self)@, final(self)@, r, t@),
            wf(final(self)@),
    {
        let args = match Args::parse(t.as_slice(), 1) {
            Ok(a) => a,
            Err(e) => {
                self.halt();
                return Err(e);
            },
        };
        let arg = args.get(0);
        if path_rejected_exec(arg.as_slice(), self.relative_paths_ok) {
            self.halt();
            return Err(InterpreterError::PathError);
        }
        let out = if self.no_exec {
            StepOutcome::Quiet
        } else {
            StepOutcome::Image { path: copy_whole(arg.as_slice()) }
        };
        proof {
            assert(old(self).lines.len() == old(self).lines@.len());
        }
        self.pc = self.pc + 1;
        Ok(out)
    }

    fn do_include(&mut self, t: &Vec<u8>) -> (r: Result<StepOutcome, InterpreterError>)
        requires
            wf(old(self)@),
            old(self)@.pending is None,
            !old(self)@.finished,
            0 <= old(self)@.pc < old(self)@.lines.len(),
        ensures
            include_post(old(self)@, final(self)@, r, t@),
            wf(final(self)@),
    {
        let args = match Args::parse(t.as_slice(), 1) {
            Ok(a) => a,
            Err(e) => {
                self.halt();
                return Err(e);
            },
        };
        let arg = args.get(0);
        if path_rejected_exec(arg.as_slice(), self.relative_paths_ok) {
            self.halt();
            return Err(InterpreterError::PathError);
        }
        let path = copy_whole(arg.as_slice());
        self.pending = Some(copy_whole(arg.as_slice()));
        Ok(StepOutcome::Include { path })
    }

    fn do_title(&mut self, t: &Vec<u8>) -> (r: Result<StepOutcome, InterpreterError>)
        requires
            wf(old(self)@),
            old(self)@.pending is None,
            !old(self)@.finished,
            0 <= old(self)@.pc < old(self)@.lines.len(),
        ensures
            title_post(old(self)@, final(self)@, r, t@),
            wf(final(self)@),
    {
        let args = match Args::parse(t.as_slice(), 1) {
            Ok(a) => a,
            Err(e) => {
                self.halt();
                return Err(e);
            },
        };
        let text = copy_whole(args.get(0).as_slice());
        proof {
            assert(old(self).lines.len() == old(self).lines@.len());
        }
        self.pc = self.pc + 1;
        Ok(StepOutcome::Title { text })
    }

    fn do_resize(&mut self, t: &Vec<u8>) -> (r: Result<StepOutcome, InterpreterError>)
        requires
            wf(old(self)@),
            old(self)@.pending is None,
            !old(self)@.finished,
            0 <= old(self)@.pc < old(self)@.lines.len(),
        ensures
            resize_post(old(self)@, final(self)@, r, t@),
            wf(final(self)@),
    {
        let args = match Args::parse(t.as_slice(), 2) {
            Ok(a) => a,
            Err(e) => {
                self.halt();
                return Err(e);
            },
        };
        let columns = match crate::text::parse_u16(args.get(0).as_slice()) {
            Some(v) => v,
            None => {
                self.halt();
                return Err(InterpreterError::ArgFormatError);
            },
        };
        let rows = match crate::text::parse_u16(args.get(1).as_slice()) {
            Some(v) => v,
            None => {
                self.halt();
                return Err(InterpreterError::ArgFormatError);
            },
        };
        proof {
            assert(old(self).lines.len() == old(self).lines@.len());
        }
        self.pc = self.pc + 1;
        if self.no_exec {
            Ok(StepOutcome::Quiet)
        } else {
            Ok(StepOutcome::Resize { columns, rows })
        }
    }

    fn do_move_cursor(&mut self, t: &Vec<u8>) -> (r: Result<StepOutcome, InterpreterError>)
        requires
            wf(old(self)@),
            old(self)@.pending is None,
            !old(self)@.finished,
            0 <= old(self)@.pc < old(self)@.lines.len(),
        ensures
            movecursor_post(old(self)@, final(self)@, r, t@),
            wf(final(self)@),
    {
        let args = match Args::parse(t.as_slice(), 2) {
            Ok(a) => a,
            Err(e) => {
                self.halt();
                return Err(e);
            },
        };
        let columns = match parse_usize(args.get(0).as_slice()) {
            Some(v) => v,
            None => {
                self.halt();
                return Err(InterpreterError::ArgFormatError);
            },
        };
        let rows = match parse_usize(args.get(1).as_slice()) {
            Some(v) => v,
            None => {
                self.halt();
                return Err(InterpreterError::ArgFormatError);
            },
        };
        if columns == usize::MAX || rows == usize::MAX {
            self.halt();
            return Err(InterpreterError::ArgFormatError);
        }
        proof {
            assert(old(self).lines.len() == old(self).lines@.len());
        }
        self.pc = self.pc + 1;
        if self.debug {
            Ok(StepOutcome::Quiet)
        } else {
            Ok(StepOutcome::MoveCursor { columns, rows })
        }
    }

    fn do_escape(&mut self, t: &Vec<u8>) -> (r: Result<StepOutcome, InterpreterError>)
        requires
            wf(old(self)@),
            old(self)@.pending is None,
            !old(self)@.finished,
            0 <= old(self)@.pc < old(self)@.lines.len(),
        ensures
            appended(old(self)@, final(self)@, t@.skip(escape_skip(t@)) + seq![NL]),
            r == Result::<StepOutcome, InterpreterError>::Ok(StepOutcome::Quiet),
            wf(final(self)@),
    {
        let cut = escape_cut(t.as_slice());
        let (_, rest) = t.as_slice().split_at(cut);
        append_bytes(&mut self.buf, rest);
        self.buf.push(NL);
        proof {
            assert(old(self).lines.len() == old(self).lines@.len());
        }
        self.pc = self.pc + 1;
        proof {
            assert(rest@ =~= t@.skip(escape_skip(t@)));
            assert(self.buf@ =~= old(self)@.buf + (t@.skip(escape_skip(t@)) + seq![NL]));
        }
        Ok(StepOutcome::Quiet)
    }
}

/// The current directive line of an executable state: trimmed, and the seat
/// of the arguments the step parses.
pub open spec fn cur_line(m: Model) -> Seq<u8> {
    trimmed(m.lines[m.pc])
}

/// A state on which a step executes a line: no paused include, the run not
/// over, the counter on a buffer line.
pub open spec fn executable(m: Model) -> bool {
    &&& m.pending is None
    &&& !m.finished
    &&& 0 <= m.pc < m.lines.len()
}

/// One step never forgets a fired jump origin: the jump cache only grows.
pub proof fn lemma_step_gotos_monotone(
    pre: Model,
    post: Model,
    r: Result<StepOutcome, InterpreterError>,
)
    requires
        step_post(pre, post, r),
    ensures
        pre.gotos.subset_of(post.gotos),
{
    if pre.pending is None && !pre.finished && pre.pc < pre.lines.len() {
        let t = cur_line(pre);
        match classify(t) {
            Dir::Goto => {
                assert(pre.gotos.subset_of(post.gotos));
            },
            _ => {
                assert(pre.gotos.subset_of(post.gotos));
            },
        }
    }
}

/// Jump idempotence: when a jump directive at an origin line fires, the
/// origin is cached; a later jump step at that same origin line — whatever
/// target its argument holds by then — falls through to the next line
/// without redirecting the counter or touching any state.
pub proof fn lemma_goto_fires_once(
    pre1: Model,
    post1: Model,
    r1: Result<StepOutcome, InterpreterError>,
    pre2: Model,
    post2: Model,
    r2: Result<StepOutcome, InterpreterError>,
)
    requires
        step_post(pre1, post1, r1),
        executable(pre1),
        classify(cur_line(pre1)) == Dir::Goto,
        quoted_args(cur_line(pre1)).len() == 1,
        usize_arg(quoted_args(cur_line(pre1))[0]) is Some,
        usize_arg(quoted_args(cur_line(pre1))[0])->Some_0 >= 1,
        !pre1.gotos.contains(pre1.pc + 1),
        step_post(pre2, post2, r2),
        executable(pre2),
        pre2.pc == pre1.pc,
        classify(cur_line(pre2)) == Dir::Goto,
        quoted_args(cur_line(pre2)).len() == 1,
        usize_arg(quoted_args(cur_line(pre2))[0]) is Some,
        usize_arg(quoted_args(cur_line(pre2))[0])->Some_0 >= 1,
        post1.gotos.subset_of(pre2.gotos),
    ensures
        post1.pc == usize_arg(quoted_args(cur_line(pre1))[0])->Some_0 - 1,
        post1.gotos.contains(pre1.pc + 1),
        post2.pc == pre2.pc + 1,
        post2.gotos == pre2.gotos,
        post2.lines == pre2.lines,
        post2.buf == pre2.buf,
{
    assert(post1.gotos.contains(pre1.pc + 1));
    assert(pre2.gotos.contains(pre2.pc + 1));
}

/// Substitution idempotence: applying a pair to a target line rewrites it
/// and caches the pair; a later substitution step aimed at the same target
/// with the identical pair leaves the whole line buffer untouched. (A later
/// visit with a different pair takes the rewrite arm of `replace_post`
/// again.)
pub proof fn lemma_replace_idempotent(
    pre1: Model,
    post1: Model,
    r1: Result<StepOutcome, InterpreterError>,
    pre2: Model,
    post2: Model,
    r2: Result<StepOutcome, InterpreterError>,
)
    requires
        step_post(pre1, post1, r1),
        executable(pre1),
        classify(cur_line(pre1)) == Dir::Replace,
        quoted_args(cur_line(pre1)).len() == 3,
        usize_arg(quoted_args(cur_line(pre1))[0]) is Some,
        usize_arg(quoted_args(cur_line(pre1))[0])->Some_0 >= 1,
        usize_arg(quoted_args(cur_line(pre1))[0])->Some_0 - 1 < pre1.lines.len(),
        !(pre1.repls.contains_key(usize_arg(quoted_args(cur_line(pre1))[0])->Some_0 - 1)
            && pre1.repls[usize_arg(quoted_args(cur_line(pre1))[0])->Some_0 - 1] == (
        quoted_args(cur_line(pre1))[1],
        quoted_args(cur_line(pre1))[2],
        )),
        step_post(pre2, post2, r2),
        executable(pre2),
        classify(cur_line(pre2)) == Dir::Replace,
        quoted_args(cur_line(pre2)).len() == 3,
        usize_arg(quoted_args(cur_line(pre2))[0]) == usize_arg(quoted_args(cur_line(pre1))[0]),
        quoted_args(cur_line(pre2))[1] == quoted_args(cur_line(pre1))[1],
        quoted_args(cur_line(pre2))[2] == quoted_args(cur_line(pre1))[2],
        pre2.repls == post1.repls,
    ensures
        post1.lines == pre1.lines.update(
            usize_arg(quoted_args(cur_line(pre1))[0])->Some_0 - 1,
            replace_bytes(
                pre1.lines[usize_arg(quoted_args(cur_line(pre1))[0])->Some_0 - 1],
                quoted_args(cur_line(pre1))[1],
                quoted_args(cur_line(pre1))[2],
            ),
        ),
        post2.lines == pre2.lines,
        post2.pc == pre2.pc + 1,
        post2.repls == pre2.repls,
{
    let idx = usize_arg(quoted_args(cur_line(pre1))[0])->Some_0 - 1;
    assert(post1.repls.contains_key(idx));
    assert(post1.repls[idx] == (quoted_args(cur_line(pre1))[1], quoted_args(cur_line(pre1))[2]));
}

/// The second half of substitution idempotence: a substitution step whose
/// pair differs from the pair cached for its target rewrites the target
/// line again.
pub proof fn lemma_replace_fresh_pair(pre: Model, post: Model, r: Result<
    StepOutcome,
    InterpreterError,
>)
    requires
        step_post(pre, post, r),
        executable(pre),
        classify(cur_line(pre)) == Dir::Replace,
        quoted_args(cur_line(pre)).len() == 3,
        usize_arg(quoted_args(cur_line(pre))[0]) is Some,
        usize_arg(quoted_args(cur_line(pre))[0])->Some_0 >= 1,
        usize_arg(quoted_args(cur_line(pre))[0])->Some_0 - 1 < pre.lines.len(),
        !(pre.repls.contains_key(usize_arg(quoted_args(cur_line(pre))[0])->Some_0 - 1)
            && pre.repls[usize_arg(quoted_args(cur_line(pre))[0])->Some_0 - 1] == (
        quoted_args(cur_line(pre))[1],
        quoted_args(cur_line(pre))[2],
        )),
    ensures
        post.lines[usize_arg(quoted_args(cur_line(pre))[0])->Some_0 - 1] == replace_bytes(
            pre.lines[usize_arg(quoted_args(cur_line(pre))[0])->Some_0 - 1],
            quoted_args(cur_line(pre))[1],
            quoted_args(cur_line(pre))[2],
        ),
        post.repls[usize_arg(quoted_args(cur_line(pre))[0])->Some_0 - 1] == (
            quoted_args(cur_line(pre))[1],
            quoted_args(cur_line(pre))[2],
        ),
        post.pc == pre.pc + 1,
{
}

/// Line deletion permanently shrinks the buffer by one and shifts every
/// later line down one position, so all later 1-based references move down
/// by one.
pub proof fn lemma_del_line_shifts(pre: Model, post: Model, r: Result<
    StepOutcome,
    InterpreterError,
>)
    requires
        step_post(pre, post, r),
        executable(pre),
        classify(cur_line(pre)) == Dir::DelLine,
        quoted_args(cur_line(pre)).len() == 1,
        usize_arg(quoted_args(cur_line(pre))[0]) is Some,
        usize_arg(quoted_args(cur_line(pre))[0])->Some_0 >= 1,
        usize_arg(quoted_args(cur_line(pre))[0])->Some_0 - 1 < pre.lines.len(),
    ensures
        post.lines.len() == pre.lines.len() - 1,
        forall|j: int|
            0 <= j < usize_arg(quoted_args(cur_line(pre))[0])->Some_0 - 1 ==> post.lines[j]
                == pre.lines[j],
        forall|j: int|
            usize_arg(quoted_args(cur_line(pre))[0])->Some_0 - 1 <= j < post.lines.len()
                ==> post.lines[j] == pre.lines[j + 1],
{
}

/// The plain print emits the print buffer exactly — every character, in
/// original order, whatever the interval; the zero-interval line print
/// appends exactly one trailing newline.
pub proof fn lemma_flush_plain_exact(buf: Seq<u8>, interval: DurationVal)
    ensures
        render_flush(buf, interval, false) == buf,
        interval.is_zero() ==> render_flush(buf, interval, true) == buf + seq![NL],
{
}

/// A timed line flush emits the buffered text in original order: on a
/// buffer of newline-terminated lines free of carriage returns — which is
/// what literal text, empty-line and escape directives build — it emits the
/// buffer exactly.
pub proof fn lemma_flush_timed_line_order(buf: Seq<u8>, interval: DurationVal)
    requires
        !interval.is_zero(),
        buf.len() > 0 ==> buf.last() == NL,
        forall|k: int| 0 <= k < buf.len() ==> buf[k] != crate::text::CR,
    ensures
        render_flush(buf, interval, true) == buf,
    decreases buf.len(),
{
    if buf.len() == 0 {
        assert(split_lines_spec(buf) =~= Seq::<Seq<u8>>::empty());
        assert(render_flush(buf, interval, true) =~= buf);
    } else {
        crate::text::lemma_find_byte(buf, NL);
        let i = crate::text::find_byte(buf, NL);
        assert(i < buf.len()) by {
            assert(buf[buf.len() - 1] == NL);
        }
        let head = buf.take(i as int);
        let tail = buf.skip(i as int + 1);
        assert(crate::text::strip_cr(head) =~= head) by {
            if head.len() > 0 {
                assert(head.last() == buf[i - 1]);
            }
        }
        assert(split_lines_spec(buf) =~= seq![head] + split_lines_spec(tail));
        if tail.len() > 0 {
            assert(tail.last() == buf[buf.len() - 1]);
        }
        assert(forall|k: int| 0 <= k < tail.len() ==> tail[k] != crate::text::CR);
        lemma_flush_timed_line_order(tail, interval);
        assert((seq![head] + split_lines_spec(tail)).skip(1) =~= split_lines_spec(tail));
        assert((seq![head] + split_lines_spec(tail))[0] == head);
        assert(concat_nl(seq![head] + split_lines_spec(tail)) =~= head + seq![NL] + concat_nl(
            split_lines_spec(tail),
        ));
        assert(head + seq![NL] + tail =~= buf) by {
            assert(buf[i as int] == NL);
        }
    }
}

} // verus!
