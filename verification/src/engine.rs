//! The pass over a document: directives are read line by line, blocks are
//! aligned, and everything else is passed through.

use vstd::prelude::*;
use crate::block::{block_rows, collect_block, lemma_block_rows, lemma_split_row, row_texts};
use crate::columns::{align_rows, aligned_lines, append_all, concat, measurable, uniform};
use crate::directive::{scan, scan_directive, Directive, Mode, Scan};
use crate::error::AlignmentError;
use crate::lines::{lines_of, split_lines};
use crate::newline::{count_newlines, newline_style, NewlineStyle};
use crate::sort::{lemma_sorted_texts, sort_lines, sorted_texts};
use crate::text::{
    append_chars, chars_of, ends_with, lemma_squeeze_width, matches_here, split_blank, squeeze,
    string_of, text_width, texts, tokens,
};

verus! {

/// `head` before the text of `rest`, where `rest` is a text.
pub open spec fn then_text(head: Seq<char>, rest: Result<Seq<char>, AlignmentError>) -> Result<
    Seq<char>,
    AlignmentError,
> {
    match rest {
        Ok(t) => Ok(head + t),
        Err(e) => Err(e),
    }
}

/// Whether blocks under `mode` are sorted.
pub open spec fn sorts(mode: Mode) -> bool {
    mode == Mode::Sort || mode == Mode::RegexSort
}

/// The lines that replace a block: its aligned lines, sorted where the
/// mode says so, each with its end-of-row marker.
pub open spec fn block_lines(rows: Seq<Seq<Seq<char>>>, mode: Mode) -> Seq<Seq<char>> {
    if sorts(mode) {
        sorted_texts(aligned_lines(rows))
    } else {
        aligned_lines(rows)
    }
}

/// The text that replaces a block: its lines one after the other.
pub open spec fn block_text(rows: Seq<Seq<Seq<char>>>, mode: Mode) -> Seq<char> {
    concat(block_lines(rows, mode))
}

/// The output for the lines from index `at` on, with `paused` telling
/// whether alignment is switched off there.
///
/// A line is echoed with `newline` after it, whatever it holds. A
/// malformed directive or a cancel directive ends the pass with that
/// outcome and no text; but while alignment is off a delimiter list is not
/// read, so a fault in the list is passed over. A pause directive switches
/// alignment off and a resume directive switches it on. A delimiter list,
/// where alignment is on and the list names at least one delimiter, is
/// followed by the text of its block, and the pass goes on after the block;
/// in every other case the pass goes on with the next line.
pub open spec fn run(lines: Seq<Seq<char>>, at: int, paused: bool, newline: Seq<char>) -> Result<
    Seq<char>,
    AlignmentError,
>
    decreases lines.len() - at,
    via run_decreases
{
    if at < 0 || at >= lines.len() {
        Ok(Seq::empty())
    } else {
        let echo = lines[at] + newline;
        match scan(lines[at]) {
            Scan::Malformed { column, reason } => {
                if paused && reason.in_list() {
                    then_text(echo, run(lines, at + 1, paused, newline))
                } else {
                    Err(
                        AlignmentError::InvalidAlignmentStatement(
                            at as usize,
                            column as usize,
                            reason,
                        ),
                    )
                }
            },
            Scan::Cancel => Err(AlignmentError::FileCanceled),
            Scan::Plain => then_text(echo, run(lines, at + 1, paused, newline)),
            Scan::Pause => then_text(echo, run(lines, at + 1, true, newline)),
            Scan::Resume => then_text(echo, run(lines, at + 1, false, newline)),
            Scan::Delimiters { mode, literal } => {
                if paused || tokens(literal).len() == 0 {
                    then_text(echo, run(lines, at + 1, paused, newline))
                } else {
                    let rows = block_rows(lines, at + 1, tokens(literal));
                    then_text(
                        echo + block_text(rows, mode),
                        run(lines, at + 1 + rows.len(), paused, newline),
                    )
                }
            },
        }
    }
}

#[via_fn]
proof fn run_decreases(lines: Seq<Seq<char>>, at: int, paused: bool, newline: Seq<char>) {
    if 0 <= at < lines.len() {
        if let Scan::Delimiters { mode, literal } = scan(lines[at]) {
            lemma_block_rows(lines, at + 1, tokens(literal));
        }
    }
}

/// `text` without its last `n` characters; empty where it has fewer.
pub open spec fn without_last(text: Seq<char>, n: nat) -> Seq<char> {
    if text.len() >= n {
        text.take(text.len() - n)
    } else {
        Seq::empty()
    }
}

/// `text` without the terminator that ends it: the terminator with which
/// the pass ends the lines that it echoes, where `text` ends with that;
/// else the one character that ends a row of a block.
pub open spec fn unterminated(text: Seq<char>, newline: Seq<char>) -> Seq<char> {
    if ends_with(text, newline) {
        without_last(text, newline.len())
    } else {
        without_last(text, 1)
    }
}

/// The end of the pass: the text that the pass has made, or what ended the
/// pass. The pass puts a terminator after every line; where the document
/// does not end with its dominant terminator, the one after the last line
/// is taken off again.
pub open spec fn finish(
    made: Result<Seq<char>, AlignmentError>,
    terminated: bool,
    newline: Seq<char>,
) -> Result<Seq<char>, AlignmentError> {
    match made {
        Err(e) => Err(e),
        Ok(text) => if terminated {
            Ok(text)
        } else {
            Ok(unterminated(text, newline))
        },
    }
}

/// What the engine makes of the document `doc`: the document with every
/// block aligned, its lines ended by the dominant terminator of `doc`, and
/// the last line ended by a terminator where `doc` ends with its dominant
/// terminator; or the cancellation or the fault that ended the pass.
pub open spec fn align(doc: Seq<char>) -> Result<Seq<char>, AlignmentError> {
    let newline = newline_style(doc).terminator();
    finish(run(split_lines(doc), 0, false, newline), ends_with(doc, newline), newline)
}

/// Text put before text put before an outcome is the two texts put before
/// it.
pub proof fn lemma_then_text(a: Seq<char>, b: Seq<char>, rest: Result<Seq<char>, AlignmentError>)
    ensures
        then_text(a, then_text(b, rest)) == then_text(a + b, rest),
{
    if let Ok(t) = rest {
        assert(a + (b + t) =~= (a + b) + t);
    }
}

/// The rows of a block all have two cells for each delimiter and two more,
/// and their cells are no wider than the lines they come from.
pub proof fn lemma_block_shape(lines: Seq<Seq<char>>, start: int, delims: Seq<Seq<char>>)
    requires
        0 <= start <= lines.len(),
        forall|i: int| 0 <= i < lines.len() ==> text_width(#[trigger] lines[i]) <= usize::MAX,
    ensures
        uniform(block_rows(lines, start, delims), 2 * delims.len() + 2),
        measurable(block_rows(lines, start, delims)),
{
    let rows = block_rows(lines, start, delims);
    lemma_block_rows(lines, start, delims);
    assert forall|r: int| 0 <= r < rows.len() implies (#[trigger] rows[r]).len() == 2
        * delims.len() + 2 && (forall|j: int|
        0 <= j < rows[r].len() ==> text_width(#[trigger] rows[r][j]) <= usize::MAX) by {
        let line = lines[start + r];
        lemma_split_row(squeeze(line), delims);
        lemma_squeeze_width(line);
        reveal_strlit("\n");
        assert(text_width("\n"@) == 1) by {
            assert(text_width("\n"@.drop_last()) == 0);
        }
    }
}

/// Appends the text of the block that begins at line `at` to `out`, and
/// returns the number of lines that the block takes.
fn emit_block(
    lines: &Vec<Vec<char>>,
    at: usize,
    delims: &Vec<Vec<char>>,
    mode: Mode,
    out: &mut Vec<char>,
) -> (n: usize)
    requires
        at <= lines.len(),
        forall|i: int| 0 <= i < lines.len() ==> text_width(#[trigger] lines[i]@) <= usize::MAX,
    ensures
        n == block_rows(texts(lines@), at as int, texts(delims@)).len(),
        at + n <= lines.len(),
        final(out)@ == old(out)@ + block_text(
            block_rows(texts(lines@), at as int, texts(delims@)),
            mode,
        ),
{
    let rows = collect_block(lines, at, delims);
    let ghost rs = row_texts(rows@);
    proof {
        assert forall|i: int| 0 <= i < texts(lines@).len() implies text_width(
            #[trigger] texts(lines@)[i],
        ) <= usize::MAX by {
            assert(texts(lines@)[i] == lines[i]@);
        }
        lemma_block_rows(texts(lines@), at as int, texts(delims@));
        lemma_block_shape(texts(lines@), at as int, texts(delims@));
        lemma_sorted_texts(aligned_lines(rs));
    }
    if rows.len() > 0 {
        proof {
            assert(rs[0] == texts(rows[0]@));
        }
        let mut block = align_rows(&rows);
        if mode.sort() {
            sort_lines(&mut block);
        }
        append_all(out, &block);
    } else {
        proof {
            assert(aligned_lines(rs) =~= Seq::<Seq<char>>::empty());
            assert(sorted_texts(aligned_lines(rs)) =~= Seq::<Seq<char>>::empty());
            assert(out@ + block_text(rs, mode) =~= out@);
        }
    }
    rows.len()
}

/// What one transition of the pass gives: the text that it puts out, the
/// index of the line at which the pass goes on, and whether alignment is
/// switched off from there on.
pub struct Transition {
    pub text: Seq<char>,
    pub cursor: int,
    pub paused: bool,
}

/// The transition that the pass makes at the line with index `at`, with
/// `paused` telling whether alignment is switched off there; or what ends
/// the pass at that line.
///
/// A cancel directive ends the pass, and so does a malformed directive,
/// with the index of the line and the column of the fault; but while
/// alignment is off a fault in a delimiter list is passed over. Every other
/// line is echoed with `newline` after it. A pause directive switches
/// alignment off and a resume directive switches it on. A delimiter list,
/// where alignment is on and the list names at least one delimiter, takes
/// the block under it along: the text of the block follows the line, and
/// the pass goes on behind the block.
pub open spec fn transition(lines: Seq<Seq<char>>, at: int, paused: bool, newline: Seq<char>)
    -> Result<Transition, AlignmentError> {
    let echo = lines[at] + newline;
    let next = Transition { text: echo, cursor: at + 1, paused };
    match scan(lines[at]) {
        Scan::Malformed { column, reason } => {
            if paused && reason.in_list() {
                Ok(next)
            } else {
                Err(
                    AlignmentError::InvalidAlignmentStatement(
                        at as usize,
                        column as usize,
                        reason,
                    ),
                )
            }
        },
        Scan::Cancel => Err(AlignmentError::FileCanceled),
        Scan::Plain => Ok(next),
        Scan::Pause => Ok(Transition { text: echo, cursor: at + 1, paused: true }),
        Scan::Resume => Ok(Transition { text: echo, cursor: at + 1, paused: false }),
        Scan::Delimiters { mode, literal } => {
            if paused || tokens(literal).len() == 0 {
                Ok(next)
            } else {
                let rows = block_rows(lines, at + 1, tokens(literal));
                Ok(
                    Transition {
                        text: echo + block_text(rows, mode),
                        cursor: at + 1 + rows.len(),
                        paused,
                    },
                )
            }
        },
    }
}

/// The pass is its transitions, one after the other: what ends the pass at
/// a line is its outcome from there, and otherwise the text of the
/// transition stands before the outcome from the line at which the pass
/// goes on, which is a later line and not behind the end.
pub proof fn lemma_run_steps(lines: Seq<Seq<char>>, at: int, paused: bool, newline: Seq<char>)
    requires
        0 <= at < lines.len(),
    ensures
        run(lines, at, paused, newline) == match transition(lines, at, paused, newline) {
            Err(e) => Err::<Seq<char>, AlignmentError>(e),
            Ok(t) => then_text(t.text, run(lines, t.cursor, t.paused, newline)),
        },
        match transition(lines, at, paused, newline) {
            Err(_) => true,
            Ok(t) => at < t.cursor <= lines.len(),
        },
{
    if let Scan::Delimiters { mode, literal } = scan(lines[at]) {
        lemma_block_rows(lines, at + 1, tokens(literal));
    }
}

/// The state of the pass over one document: whether alignment is switched
/// off, the output so far, and the index of the line that the pass is at.
/// Each pass has a state of its own.
#[derive(Debug)]
pub struct EngineState {
    pub paused: bool,
    pub output: Vec<char>,
    pub cursor: usize,
}

impl EngineState {
    /// What the pass that goes on from this state over `lines` ends with:
    /// the output so far and then the output for the lines from the cursor
    /// on, or what ends the pass.
    pub open spec fn outcome(self, lines: Seq<Seq<char>>, newline: Seq<char>) -> Result<
        Seq<char>,
        AlignmentError,
    > {
        then_text(self.output@, run(lines, self.cursor as int, self.paused, newline))
    }

    /// The state in which a pass begins: alignment is on, nothing is put
    /// out, and the cursor is at the first line.
    pub fn new() -> (state: Self)
        ensures
            !state.paused,
            state.output@ == Seq::<char>::empty(),
            state.cursor == 0,
    {
        EngineState { paused: false, output: Vec::new(), cursor: 0 }
    }

    /// One transition: takes the line at the cursor, and with it the block
    /// under it where the line is a delimiter list and alignment is on.
    /// The line is echoed, a pause or resume directive switches alignment,
    /// the block is put out aligned, and the cursor moves on behind what
    /// was taken: the state after the call is the state before it with the
    /// transition at the cursor made.
    ///
    /// A cancel directive or a fault in the line at the cursor ends the
    /// pass: it is returned, and the state is left as it was.
    pub fn step(&mut self, lines: &Vec<Vec<char>>, newline: &[char]) -> (r: Result<
        (),
        AlignmentError,
    >)
        requires
            old(self).cursor < lines.len(),
            forall|i: int|
                0 <= i < lines.len() ==> text_width(#[trigger] lines[i]@) <= usize::MAX,
        ensures
            match transition(
                texts(lines@),
                old(self).cursor as int,
                old(self).paused,
                newline@,
            ) {
                Ok(t) => {
                    &&& r is Ok
                    &&& final(self).output@ == old(self).output@ + t.text
                    &&& final(self).cursor == t.cursor
                    &&& final(self).paused == t.paused
                    &&& old(self).cursor < final(self).cursor <= lines.len()
                },
                Err(e) => {
                    &&& r == Err::<(), AlignmentError>(e)
                    &&& *final(self) == *old(self)
                },
            },
    {
        let ghost ls = texts(lines@);
        let ghost nl = newline@;
        let ghost before = self.output@;
        let at: usize = self.cursor;
        let line = &lines[at];
        let ghost echo = line@ + nl;
        proof {
            assert(ls[at as int] == line@);
            lemma_run_steps(ls, at as int, self.paused, nl);
        }
        let directive = match scan_directive(line, at) {
            Err(AlignmentError::InvalidAlignmentStatement(line_index, column, reason)) => {
                if self.paused && reason.is_in_list() {
                    None
                } else {
                    return Err(
                        AlignmentError::InvalidAlignmentStatement(line_index, column, reason),
                    );
                }
            },
            Err(e) => {
                return Err(e);
            },
            Ok(Some(Directive::Cancel)) => {
                return Err(AlignmentError::FileCanceled);
            },
            Ok(directive) => directive,
        };
        append_chars(&mut self.output, line);
        append_chars(&mut self.output, newline);
        self.cursor = at + 1;
        proof {
            assert(self.output@ =~= before + echo);
        }
        match directive {
            Some(Directive::Pause) => {
                self.paused = true;
            },
            Some(Directive::Resume) => {
                self.paused = false;
            },
            Some(Directive::DelimiterSpec { mode, raw_literal }) => {
                let delims = split_blank(&raw_literal);
                if !self.paused && delims.len() > 0 {
                    let ghost rows = block_rows(ls, at + 1, texts(delims@));
                    let n: usize = emit_block(lines, at + 1, &delims, mode, &mut self.output);
                    self.cursor = at + 1 + n;
                    proof {
                        assert(self.output@ =~= before + (echo + block_text(rows, mode)));
                    }
                }
            },
            _ => {},
        }
        Ok(())
    }
}

/// Makes the pass over `lines`, ending each echoed line with `newline`:
/// steps from the first line to the last, or to the line that ends the
/// pass.
pub fn run_lines(lines: &Vec<Vec<char>>, newline: &[char]) -> (r: Result<
    Vec<char>,
    AlignmentError,
>)
    requires
        forall|i: int| 0 <= i < lines.len() ==> text_width(#[trigger] lines[i]@) <= usize::MAX,
    ensures
        match r {
            Ok(out) => run(texts(lines@), 0, false, newline@) == Ok::<Seq<char>, AlignmentError>(
                out@,
            ),
            Err(e) => run(texts(lines@), 0, false, newline@) == Err::<Seq<char>, AlignmentError>(
                e,
            ),
        },
{
    let ghost ls = texts(lines@);
    let ghost nl = newline@;
    let ghost goal = run(ls, 0, false, nl);
    let mut state = EngineState::new();
    proof {
        if let Ok(t) = goal {
            assert(state.output@ + t =~= t);
        }
    }
    while state.cursor < lines.len()
        invariant
            state.cursor <= lines.len(),
            ls == texts(lines@),
            nl == newline@,
            forall|i: int| 0 <= i < lines.len() ==> text_width(#[trigger] lines[i]@) <= usize::MAX,
            goal == run(ls, 0, false, nl),
            goal == state.outcome(ls, nl),
        decreases lines.len() - state.cursor,
    {
        let ghost before = state.output@;
        proof {
            lemma_run_steps(ls, state.cursor as int, state.paused, nl);
            if let Ok(t) = transition(ls, state.cursor as int, state.paused, nl) {
                lemma_then_text(before, t.text, run(ls, t.cursor, t.paused, nl));
            }
        }
        match state.step(lines, newline) {
            Err(e) => {
                return Err(e);
            },
            Ok(_) => {},
        }
    }
    proof {
        assert(state.output@ + Seq::<char>::empty() =~= state.output@);
    }
    Ok(state.output)
}

/// Whether `s` ends with `tail`.
pub fn ends_with_chars(s: &[char], tail: &[char]) -> (b: bool)
    ensures
        b == ends_with(s@, tail@),
{
    s.len() >= tail.len() && matches_here(s, tail, s.len() - tail.len())
}

/// A document as the engine sees it: its lines, its dominant terminator,
/// and whether it ends with that terminator.
#[derive(Debug)]
pub struct Document {
    pub lines: Vec<Vec<char>>,
    pub style: NewlineStyle,
    pub terminated: bool,
}

impl Document {
    /// The document is the text `text`, and its lines are of a width that
    /// can be counted.
    pub open spec fn holds(self, text: Seq<char>) -> bool {
        &&& texts(self.lines@) == split_lines(text)
        &&& self.style == newline_style(text)
        &&& self.terminated == ends_with(text, newline_style(text).terminator())
        &&& self.bounded()
    }

    /// The lines of the document are of a width that can be counted.
    pub open spec fn bounded(self) -> bool {
        forall|i: int|
            0 <= i < self.lines.len() ==> text_width(#[trigger] self.lines[i]@) <= usize::MAX
    }

    /// What the engine makes of the document.
    pub open spec fn outcome(self) -> Result<Seq<char>, AlignmentError> {
        finish(
            run(texts(self.lines@), 0, false, self.style.terminator()),
            self.terminated,
            self.style.terminator(),
        )
    }

    /// Reads a text as a document: finds its dominant terminator and
    /// splits it into lines.
    pub fn read(text: &[char]) -> (doc: Self)
        requires
            text_width(text@) <= usize::MAX,
        ensures
            doc.holds(text@),
    {
        let style = count_newlines(text).max();
        let newline = style.to_chars();
        let terminated = ends_with_chars(text, &newline);
        Document { lines: lines_of(text), style, terminated }
    }

    /// Aligns the document: makes the pass over its lines, and takes the
    /// terminator after the last line off again where the document does not
    /// end with its dominant terminator.
    pub fn aligned(&self) -> (r: Result<Vec<char>, AlignmentError>)
        requires
            self.bounded(),
        ensures
            match r {
                Ok(out) => self.outcome() == Ok::<Seq<char>, AlignmentError>(out@),
                Err(e) => self.outcome() == Err::<Seq<char>, AlignmentError>(e),
            },
    {
        let newline = self.style.to_chars();
        match run_lines(&self.lines, &newline) {
            Err(e) => Err(e),
            Ok(out) => {
                let mut out = out;
                let ghost text = out@;
                if !self.terminated {
                    let keep: usize = if ends_with_chars(&out, &newline) {
                        out.len() - newline.len()
                    } else if out.len() >= 1 {
                        out.len() - 1
                    } else {
                        0
                    };
                    out.truncate(keep);
                    assert(out@ =~= unterminated(text, newline@));
                }
                Ok(out)
            },
        }
    }
}

/// Aligns the document `doc`.
pub fn align_chars(doc: &[char]) -> (r: Result<Vec<char>, AlignmentError>)
    requires
        text_width(doc@) <= usize::MAX,
    ensures
        match r {
            Ok(out) => align(doc@) == Ok::<Seq<char>, AlignmentError>(out@),
            Err(e) => align(doc@) == Err::<Seq<char>, AlignmentError>(e),
        },
{
    Document::read(doc).aligned()
}

/// Aligns the document `s`: reads the `align_by` directives that its lines
/// hold and pads the columns of the block under each delimiter list.
///
/// Returns the new text of the document; `FileCanceled` where the pass met
/// a cancel directive; or the first malformed directive with its line and
/// byte column. In the last two cases the caller leaves the document as it
/// is.
pub fn align_string(s: &str) -> (r: Result<String, AlignmentError>)
    ensures
        match r {
            Ok(out) => align(s@) == Ok::<Seq<char>, AlignmentError>(out@),
            Err(e) => align(s@) == Err::<Seq<char>, AlignmentError>(e),
        },
{
    let doc = chars_of(s);
    match align_chars(&doc) {
        Ok(out) => Ok(string_of(&out)),
        Err(e) => Err(e),
    }
}

} // verus!
