//! One line-driven state machine for both stack formats: thread headers open a
//! block, frame lines extend it, and each block is committed under its thread id.
use vstd::prelude::*;
use crate::text::{split_lines, lines_of, chars_of, string_of, push_all};
use crate::grammar::{
    has_pid_header, has_gdb_header, eu_open, gdb_open, eu_entry, gdb_entry, gdb_detach, find_pid_header,
    find_gdb_header, eu_open_of, gdb_open_of, eu_entry_of, gdb_entry_of, gdb_detach_of, lit_at, word_pid,
    word_thread,
};

verus! {

/// The two stack formats: the unwinder's (`eu-stack`) and the debugger's (`gdb`).
#[derive(Clone, Copy, Debug, PartialEq, Eq, Structural)]
pub enum StackFormat {
    Unwinder,
    Debugger,
}

/// What one line means to the parser.
#[derive(Clone, Copy, Debug, PartialEq, Eq, Structural)]
pub enum LineKind {
    /// Not content: blank, a process header, the closing line, or noise.
    Skip,
    /// A thread header: it opens a new block.
    Open,
    /// A frame of the open block.
    Frame,
    /// A line after the first header that matches nothing: worth a warning.
    Unparsed,
}

/// The text carries the header that the format requires.
pub open spec fn recognized(fmt: StackFormat, t: Seq<char>) -> bool {
    match fmt {
        StackFormat::Unwinder => has_pid_header(t),
        StackFormat::Debugger => has_gdb_header(t),
    }
}

/// The thread id that a line opens, if it is a thread header of the format.
pub open spec fn opened(fmt: StackFormat, l: Seq<char>) -> Option<Seq<char>> {
    match fmt {
        StackFormat::Unwinder => eu_open(l),
        StackFormat::Debugger => gdb_open(l),
    }
}

/// How a line is read, given whether a thread header has been seen before it.
pub open spec fn classify(fmt: StackFormat, l: Seq<char>, started: bool) -> LineKind {
    match fmt {
        StackFormat::Unwinder => {
            if has_pid_header(l) || l.len() == 0 {
                LineKind::Skip
            } else if eu_open(l) is Some {
                LineKind::Open
            } else if eu_entry(l) {
                LineKind::Frame
            } else {
                LineKind::Skip
            }
        },
        StackFormat::Debugger => {
            if l.len() == 0 {
                LineKind::Skip
            } else if gdb_open(l) is Some {
                LineKind::Open
            } else if gdb_entry(l) {
                LineKind::Frame
            } else if gdb_detach(l) || !started {
                LineKind::Skip
            } else {
                LineKind::Unparsed
            }
        },
    }
}

/// The parser's state between lines.
pub struct ParseState {
    /// Id of the open block; empty before the first header.
    pub id: Seq<char>,
    /// Frames of the open block, each followed by `'\n'`.
    pub frames: Seq<char>,
    pub started: bool,
    /// Committed blocks: (thread id, frame text), in commit order.
    pub threads: Seq<(Seq<char>, Seq<char>)>,
    pub unparsed: Seq<Seq<char>>,
}

pub open spec fn initial_state() -> ParseState {
    ParseState {
        id: Seq::empty(),
        frames: Seq::empty(),
        started: false,
        threads: Seq::empty(),
        unparsed: Seq::empty(),
    }
}

/// One line of input. A header commits the open block, if one was opened.
pub open spec fn step(fmt: StackFormat, st: ParseState, l: Seq<char>) -> ParseState {
    match classify(fmt, l, st.started) {
        LineKind::Open => ParseState {
            id: opened(fmt, l)->0,
            frames: Seq::empty(),
            started: true,
            threads: if st.id.len() > 0 {
                st.threads.push((st.id, st.frames))
            } else {
                st.threads
            },
            ..st
        },
        LineKind::Frame => ParseState { frames: st.frames + l.push('\n'), ..st },
        LineKind::Unparsed => ParseState { unparsed: st.unparsed.push(l), ..st },
        LineKind::Skip => st,
    }
}

pub open spec fn run(fmt: StackFormat, lines: Seq<Seq<char>>) -> ParseState
    decreases lines.len(),
{
    if lines.len() == 0 {
        initial_state()
    } else {
        step(fmt, run(fmt, lines.drop_last()), lines.last())
    }
}

/// The thread blocks of a text, in order: every block that a header opened,
/// the last one committed when the input ends. Without any header there is
/// no block.
pub open spec fn threads_of(fmt: StackFormat, t: Seq<char>) -> Seq<(Seq<char>, Seq<char>)> {
    let st = run(fmt, split_lines(t));
    if st.id.len() > 0 {
        st.threads.push((st.id, st.frames))
    } else {
        st.threads
    }
}

/// The lines that the debugger format could not read.
pub open spec fn unparsed_of(fmt: StackFormat, t: Seq<char>) -> Seq<Seq<char>> {
    run(fmt, split_lines(t)).unparsed
}

/// One thread's call stack.
pub struct ParsedThread {
    pub thread_id: String,
    /// The frame lines, each followed by `'\n'`.
    pub frames: String,
}

impl View for ParsedThread {
    type V = (Seq<char>, Seq<char>);

    open spec fn view(&self) -> (Seq<char>, Seq<char>) {
        (self.thread_id@, self.frames@)
    }
}

pub open spec fn threads_view(v: Seq<ParsedThread>) -> Seq<(Seq<char>, Seq<char>)> {
    v.map_values(|p: ParsedThread| p@)
}

pub open spec fn strings_view(v: Seq<String>) -> Seq<Seq<char>> {
    v.map_values(|s: String| s@)
}

/// Why a text could not be parsed.
#[derive(Clone, Copy, Debug, PartialEq, Eq, Structural)]
pub enum ParseError {
    /// The text lacks the header that the format requires.
    FormatMismatch,
}

/// The parse of a text: its thread blocks and the lines it skipped with a warning.
pub struct ParseOutcome {
    pub threads: Vec<ParsedThread>,
    pub unparsed: Vec<String>,
}

fn classify_line(fmt: StackFormat, l: &Vec<char>, started: bool) -> (r: (LineKind, Vec<char>))
    ensures
        r.0 == classify(fmt, l@, started),
        r.0 == LineKind::Open ==> r.1@ == opened(fmt, l@)->0,
{
    match fmt {
        StackFormat::Unwinder => {
            if l.len() == 0 || find_pid_header(l) {
                return (LineKind::Skip, Vec::new());
            }
            match eu_open_of(l) {
                Some(id) => (LineKind::Open, id),
                None => {
                    if eu_entry_of(l) {
                        (LineKind::Frame, Vec::new())
                    } else {
                        (LineKind::Skip, Vec::new())
                    }
                },
            }
        },
        StackFormat::Debugger => {
            if l.len() == 0 {
                return (LineKind::Skip, Vec::new());
            }
            match gdb_open_of(l) {
                Some(id) => (LineKind::Open, id),
                None => {
                    if gdb_entry_of(l) {
                        (LineKind::Frame, Vec::new())
                    } else if !started || gdb_detach_of(l) {
                        (LineKind::Skip, Vec::new())
                    } else {
                        (LineKind::Unparsed, Vec::new())
                    }
                },
            }
        },
    }
}

/// Whether the text carries the header that the format requires.
pub fn is_recognized(fmt: StackFormat, t: &Vec<char>) -> (r: bool)
    ensures
        r == recognized(fmt, t@),
{
    match fmt {
        StackFormat::Unwinder => find_pid_header(t),
        StackFormat::Debugger => find_gdb_header(t),
    }
}

/// Parses a text in the given format. A text without the format's header is a
/// format mismatch: no partial result is returned.
pub fn parse_threads(fmt: StackFormat, input: &str) -> (r: Result<ParseOutcome, ParseError>)
    ensures
        r is Ok <==> recognized(fmt, input@),
        r is Err ==> r == Err::<ParseOutcome, ParseError>(ParseError::FormatMismatch),
        r matches Ok(o) ==> threads_view(o.threads@) == threads_of(fmt, input@),
        r matches Ok(o) ==> strings_view(o.unparsed@) == unparsed_of(fmt, input@),
{
    let t = chars_of(input);
    if !is_recognized(fmt, &t) {
        return Err(ParseError::FormatMismatch);
    }
    let lines = lines_of(&t);
    let ghost all = split_lines(t@);
    let mut id: Vec<char> = Vec::new();
    let mut frames: Vec<char> = Vec::new();
    let mut started = false;
    let mut threads: Vec<ParsedThread> = Vec::new();
    let mut unparsed: Vec<String> = Vec::new();
    let mut k: usize = 0;
    while k < lines.len()
        invariant
            lines@.len() == all.len(),
            forall|m: int| 0 <= m < lines@.len() ==> #[trigger] lines@[m]@ == all[m],
            k <= lines@.len(),
            id@ == run(fmt, all.take(k as int)).id,
            frames@ == run(fmt, all.take(k as int)).frames,
            started == run(fmt, all.take(k as int)).started,
            threads_view(threads@) == run(fmt, all.take(k as int)).threads,
            strings_view(unparsed@) == run(fmt, all.take(k as int)).unparsed,
        decreases lines@.len() - k,
    {
        let ghost before = run(fmt, all.take(k as int));
        proof {
            assert(all.take(k + 1).drop_last() =~= all.take(k as int));
            assert(all.take(k + 1).last() == all[k as int]);
        }
        let l = &lines[k];
        let (kind, new_id) = classify_line(fmt, l, started);
        match kind {
            LineKind::Open => {
                if id.len() > 0 {
                    let th = ParsedThread { thread_id: string_of(id.as_slice()), frames: string_of(frames.as_slice()) };
                    threads.push(th);
                    assert(threads_view(threads@) =~= before.threads.push((before.id, before.frames)));
                }
                id = new_id;
                frames = Vec::new();
                started = true;
            },
            LineKind::Frame => {
                push_all(&mut frames, l);
                frames.push('\n');
            },
            LineKind::Unparsed => {
                unparsed.push(string_of(l.as_slice()));
                assert(strings_view(unparsed@) =~= before.unparsed.push(l@));
            },
            LineKind::Skip => {},
        }
        k = k + 1;
    }
    proof {
        assert(all.take(k as int) =~= all);
    }
    let ghost st = run(fmt, all);
    if id.len() > 0 {
        let last = ParsedThread { thread_id: string_of(id.as_slice()), frames: string_of(frames.as_slice()) };
        threads.push(last);
        assert(threads_view(threads@) =~= st.threads.push((st.id, st.frames)));
    }
    Ok(ParseOutcome { threads, unparsed })
}


/// A text without the word `PID` is no unwinder output: the unwinder's parser
/// refuses it.
pub proof fn lemma_unwinder_needs_pid(t: Seq<char>)
    requires
        forall|i: int| !#[trigger] lit_at(t, i, word_pid()),
    ensures
        !recognized(StackFormat::Unwinder, t),
{
}

/// A text without the word `Thread` is no debugger output: the debugger's
/// parser refuses it.
pub proof fn lemma_debugger_needs_thread(t: Seq<char>)
    requires
        forall|i: int| !#[trigger] lit_at(t, i, word_thread()),
    ensures
        !recognized(StackFormat::Debugger, t),
{
}

} // verus!
