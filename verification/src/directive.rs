//! Finding and reading the `align_by` directive of a line.

use vstd::prelude::*;
use crate::error::{AlignmentError, InvalidAlignmentStatement};
use crate::quote::{closing_quote, find_closing_quote};
use crate::text::{
    chars_of, copy_range, find, find_text, lemma_find, matches_at, matches_here, text_width,
    width_upto,
};

verus! {

/// How the block under a delimiter list is treated.
#[derive(Clone, Copy, Debug, PartialEq, Eq, Structural)]
pub enum Mode {
    /// Align the block.
    Normal,
    /// Align the block, then sort its lines.
    Sort,
    /// As `Normal`: delimiters are matched literally in every mode.
    Regex,
    /// As `Sort`: delimiters are matched literally in every mode.
    RegexSort,
}

impl Mode {
    /// Whether the lines of the block are sorted after they are aligned.
    pub fn sort(&self) -> (b: bool)
        ensures
            b == (*self == Mode::Sort || *self == Mode::RegexSort),
    {
        self == &Self::Sort || self == &Self::RegexSort
    }

    /// Whether the mode was written with the `regex` keyword.
    pub fn regex(&self) -> (b: bool)
        ensures
            b == (*self == Mode::Regex || *self == Mode::RegexSort),
    {
        self == &Self::Regex || self == &Self::RegexSort
    }
}

/// A directive read from a line.
#[derive(Debug, PartialEq, Eq)]
pub enum Directive {
    /// `align_by cancel_file`: leave the whole document alone.
    Cancel,
    /// `align_by pause`: stop aligning until the next `resume`.
    Pause,
    /// `align_by resume`: align again.
    Resume,
    /// A delimiter list, with the text between its quotes as written.
    DelimiterSpec { mode: Mode, raw_literal: Vec<char> },
}

/// What a line is to the engine.
pub enum Scan {
    /// The line does not hold the marker.
    Plain,
    /// The line holds a cancel directive.
    Cancel,
    /// The line holds a pause directive.
    Pause,
    /// The line holds a resume directive.
    Resume,
    /// The line holds a delimiter list with this text between its quotes.
    Delimiters { mode: Mode, literal: Seq<char> },
    /// The line holds the marker, but what follows is no directive; the
    /// column is the byte offset in the line at which the fault lies.
    Malformed { column: nat, reason: InvalidAlignmentStatement },
}

/// The text that marks a directive.
pub open spec fn marker() -> Seq<char> {
    "align_by"@
}

/// The line holds the marker.
pub open spec fn has_marker(line: Seq<char>) -> bool {
    find(line, marker()) is Some
}

/// The mode keyword that `line` holds at index `at`, and the number of
/// characters it takes. The keywords are tried in this order:
/// `regex sort `, `regex `, `sort `; where none is there the mode is
/// `Normal` and nothing is taken.
pub open spec fn mode_at(line: Seq<char>, at: int) -> (Mode, int) {
    if matches_at(line, "regex sort "@, at) {
        (Mode::RegexSort, "regex sort "@.len() as int)
    } else if matches_at(line, "regex "@, at) {
        (Mode::Regex, "regex "@.len() as int)
    } else if matches_at(line, "sort "@, at) {
        (Mode::Sort, "sort "@.len() as int)
    } else {
        (Mode::Normal, 0)
    }
}

/// Reads `line`. Only the first occurrence of the marker counts. The marker
/// must be followed by one space, else the space is missing. After the
/// space stands `cancel_file`, `pause` or `resume`, or else an optional
/// mode keyword and a delimiter list: a quote, else the quote is missing,
/// then the literal up to the first unescaped quote, else the quotes are
/// unclosed. Each fault lies where the text that failed to match begins.
/// What follows a keyword or the closing quote is not looked at. A line
/// that ends too early is read by the same rules: it lacks the space, the
/// quote or the closing quote, and that is the fault reported.
#[verifier::opaque]
pub open spec fn scan(line: Seq<char>) -> Scan {
    match find(line, marker()) {
        None => Scan::Plain,
        Some(i) => {
            let a = i + marker().len();
            if !matches_at(line, " "@, a) {
                Scan::Malformed {
                    column: text_width(line.take(a)),
                    reason: InvalidAlignmentStatement::MissingSpace,
                }
            } else {
                let b = a + " "@.len();
                if matches_at(line, "cancel_file"@, b) {
                    Scan::Cancel
                } else if matches_at(line, "pause"@, b) {
                    Scan::Pause
                } else if matches_at(line, "resume"@, b) {
                    Scan::Resume
                } else {
                    let (mode, n) = mode_at(line, b);
                    let c = b + n;
                    if !matches_at(line, "\""@, c) {
                        Scan::Malformed {
                            column: text_width(line.take(c)),
                            reason: InvalidAlignmentStatement::MissingQuote,
                        }
                    } else {
                        let d = c + "\""@.len();
                        match closing_quote(line.skip(d)) {
                            None => Scan::Malformed {
                                column: text_width(line.take(d)),
                                reason: InvalidAlignmentStatement::UnclosedQuotes,
                            },
                            Some(e) => Scan::Delimiters {
                                mode,
                                literal: line.subrange(d, d + e),
                            },
                        }
                    }
                }
            }
        },
    }
}

/// What the scanner returns for a line that reads as `s`.
pub open spec fn scan_outcome(
    s: Scan,
    line_index: usize,
    r: Result<Option<Directive>, AlignmentError>,
) -> bool {
    match s {
        Scan::Plain => r == Ok::<Option<Directive>, AlignmentError>(None),
        Scan::Cancel => r == Ok::<Option<Directive>, AlignmentError>(Some(Directive::Cancel)),
        Scan::Pause => r == Ok::<Option<Directive>, AlignmentError>(Some(Directive::Pause)),
        Scan::Resume => r == Ok::<Option<Directive>, AlignmentError>(Some(Directive::Resume)),
        Scan::Delimiters { mode, literal } => r matches Ok(
            Some(Directive::DelimiterSpec { mode: m, raw_literal }),
        ) && m == mode && raw_literal@ == literal,
        Scan::Malformed { column, reason } => r == Err::<Option<Directive>, AlignmentError>(
            AlignmentError::InvalidAlignmentStatement(line_index, column as usize, reason),
        ),
    }
}

/// A line reads as plain exactly when it does not hold the marker.
pub proof fn lemma_scan_plain(line: Seq<char>)
    ensures
        scan(line) is Plain <==> !has_marker(line),
{
    reveal(scan);
}

/// Whether `line` holds the marker.
pub fn line_has_marker(line: &[char]) -> (b: bool)
    ensures
        b == has_marker(line@),
{
    let marker = chars_of("align_by");
    find_text(line, &marker).is_some()
}

/// The mode keyword at index `at` of `line`, and the index after it.
fn read_mode(line: &[char], at: usize) -> (r: (Mode, usize))
    requires
        at <= line.len(),
    ensures
        r.0 == mode_at(line@, at as int).0,
        r.1 == at + mode_at(line@, at as int).1,
        r.1 <= line.len(),
{
    let regex_sort = chars_of("regex sort ");
    let regex = chars_of("regex ");
    let sort = chars_of("sort ");
    if matches_here(line, &regex_sort, at) {
        (Mode::RegexSort, at + regex_sort.len())
    } else if matches_here(line, &regex, at) {
        (Mode::Regex, at + regex.len())
    } else if matches_here(line, &sort, at) {
        (Mode::Sort, at + sort.len())
    } else {
        (Mode::Normal, at)
    }
}

/// Looks for a directive on `line`, which is line `line_index` of its
/// document: `Ok(None)` where the line does not hold the marker, the
/// directive where it holds one, and the fault with its line and byte
/// column where what follows the marker is no directive.
pub fn scan_directive(line: &[char], line_index: usize) -> (r: Result<
    Option<Directive>,
    AlignmentError,
>)
    requires
        text_width(line@) <= usize::MAX,
    ensures
        scan_outcome(scan(line@), line_index, r),
{
    let marker = chars_of("align_by");
    let space = chars_of(" ");
    let quote = chars_of("\"");
    proof {
        reveal(scan);
        lemma_find(line@, marker@);
    }
    let i: usize = match find_text(line, &marker) {
        None => {
            return Ok(None);
        },
        Some(i) => i,
    };
    assert(line@.len() == line.len());
    let a: usize = i + marker.len();
    if !matches_here(line, &space, a) {
        return Err(AlignmentError::missing_space(line_index, width_upto(line, a)));
    }
    let b: usize = a + space.len();
    if matches_here(line, &chars_of("cancel_file"), b) {
        return Ok(Some(Directive::Cancel));
    }
    if matches_here(line, &chars_of("pause"), b) {
        return Ok(Some(Directive::Pause));
    }
    if matches_here(line, &chars_of("resume"), b) {
        return Ok(Some(Directive::Resume));
    }
    let (mode, c) = read_mode(line, b);
    if !matches_here(line, &quote, c) {
        return Err(AlignmentError::missing_quote(line_index, width_upto(line, c)));
    }
    let d: usize = c + quote.len();
    match find_closing_quote(line, d) {
        None => Err(AlignmentError::unclosed_quotes(line_index, width_upto(line, d))),
        Some(e) => {
            let raw_literal = copy_range(line, d, e);
            Ok(Some(Directive::DelimiterSpec { mode, raw_literal }))
        },
    }
}

} // verus!
