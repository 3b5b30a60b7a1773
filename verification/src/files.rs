//! What becomes of a file that is run through the engine, and the tally of
//! a run over many files.

use vstd::prelude::*;
use crate::engine::{align, align_string};
use crate::error::{AlignmentError, InvalidAlignmentStatement};

verus! {

/// What is to be done with a file after the engine has seen its content.
#[derive(Debug, PartialEq, Eq)]
pub enum FileOutcome {
    /// The content changes: the file is to be overwritten with this text.
    Aligned(String),
    /// The content stays as it is: the file is not written.
    Unchanged,
    /// The file asked to be left alone: it is not written.
    Canceled,
    /// The content holds a malformed directive, at this line and byte
    /// column: the file is not written.
    Malformed(usize, usize, InvalidAlignmentStatement),
}

/// Aligns the content of a file and tells what is to be done with the
/// file. The file is written only where the engine gives a text, and the
/// text is not the content that the file has.
pub fn align_file(content: &String) -> (outcome: FileOutcome)
    ensures
        match align(content@) {
            Ok(text) => if text == content@ {
                outcome is Unchanged
            } else {
                outcome matches FileOutcome::Aligned(s) && s@ == text
            },
            Err(AlignmentError::FileCanceled) => outcome is Canceled,
            Err(AlignmentError::InvalidAlignmentStatement(line, column, reason)) => outcome
                == FileOutcome::Malformed(line, column, reason),
        },
{
    match align_string(content.as_str()) {
        Ok(text) => {
            if text == *content {
                FileOutcome::Unchanged
            } else {
                FileOutcome::Aligned(text)
            }
        },
        Err(AlignmentError::FileCanceled) => FileOutcome::Canceled,
        Err(AlignmentError::InvalidAlignmentStatement(line, column, reason)) => {
            FileOutcome::Malformed(line, column, reason)
        },
    }
}

/// What can happen to a file in a run.
#[derive(Clone, Copy, Debug, PartialEq, Eq, Structural)]
pub enum Event {
    /// The file holds a malformed directive.
    Failed,
    /// The file is aligned as it is.
    Unchanged,
    /// The file was aligned and written.
    Aligned,
    /// The file could not be read.
    ReadError,
    /// The aligned file could not be written.
    WriteError,
    /// The file asked to be left alone.
    Canceled,
}

/// How a run over files ends.
#[derive(Clone, Copy, Debug, PartialEq, Eq, Structural)]
pub enum ExitStatus {
    /// No file failed.
    Success,
    /// A file held a malformed directive.
    Usage,
    /// A file could not be read or written.
    IoError,
}

/// The number of files that each event happened to in a run.
#[derive(Clone, Copy, Debug, PartialEq, Eq, Structural)]
pub struct Tally {
    pub failed: usize,
    pub unchanged: usize,
    pub aligned: usize,
    pub read_errors: usize,
    pub write_errors: usize,
    pub canceled: usize,
}

/// One more than `n`, as far as a counter can count.
pub open spec fn counted(n: usize) -> usize {
    if n < usize::MAX {
        (n + 1) as usize
    } else {
        n
    }
}

impl Tally {
    /// The count of `event`.
    pub open spec fn count(self, event: Event) -> usize {
        match event {
            Event::Failed => self.failed,
            Event::Unchanged => self.unchanged,
            Event::Aligned => self.aligned,
            Event::ReadError => self.read_errors,
            Event::WriteError => self.write_errors,
            Event::Canceled => self.canceled,
        }
    }

    /// The tally at the start of a run: nothing has happened.
    pub fn new() -> (tally: Self)
        ensures
            forall|event: Event| tally.count(event) == 0,
    {
        Tally { failed: 0, unchanged: 0, aligned: 0, read_errors: 0, write_errors: 0, canceled: 0 }
    }

    /// The count of `event`.
    pub fn get(&self, event: Event) -> (n: usize)
        ensures
            n == self.count(event),
    {
        match event {
            Event::Failed => self.failed,
            Event::Unchanged => self.unchanged,
            Event::Aligned => self.aligned,
            Event::ReadError => self.read_errors,
            Event::WriteError => self.write_errors,
            Event::Canceled => self.canceled,
        }
    }

    /// Counts one more file to which `event` happened. The other counts
    /// stay.
    pub fn record(&mut self, event: Event)
        ensures
            final(self).count(event) == counted(old(self).count(event)),
            forall|other: Event|
                other != event ==> final(self).count(other) == old(self).count(other),
    {
        match event {
            Event::Failed => {
                if self.failed < usize::MAX {
                    self.failed += 1;
                }
            },
            Event::Unchanged => {
                if self.unchanged < usize::MAX {
                    self.unchanged += 1;
                }
            },
            Event::Aligned => {
                if self.aligned < usize::MAX {
                    self.aligned += 1;
                }
            },
            Event::ReadError => {
                if self.read_errors < usize::MAX {
                    self.read_errors += 1;
                }
            },
            Event::WriteError => {
                if self.write_errors < usize::MAX {
                    self.write_errors += 1;
                }
            },
            Event::Canceled => {
                if self.canceled < usize::MAX {
                    self.canceled += 1;
                }
            },
        }
    }

    /// How the run ends: with an input or output error where a file could
    /// not be read or written, else with a usage error where a file held a
    /// malformed directive, else well. Canceled and unchanged files are no
    /// failures.
    pub fn exit_status(&self) -> (status: ExitStatus)
        ensures
            status == if self.read_errors > 0 || self.write_errors > 0 {
                ExitStatus::IoError
            } else if self.failed > 0 {
                ExitStatus::Usage
            } else {
                ExitStatus::Success
            },
    {
        if self.read_errors > 0 || self.write_errors > 0 {
            ExitStatus::IoError
        } else if self.failed > 0 {
            ExitStatus::Usage
        } else {
            ExitStatus::Success
        }
    }
}

/// The line of the report for `event`: the event with its count, where it
/// happened; no line where it did not.
pub open spec fn report_line(tally: Tally, event: Event) -> Seq<(Event, usize)> {
    if tally.count(event) > 0 {
        seq![(event, tally.count(event))]
    } else {
        Seq::empty()
    }
}

/// The report of a run: the events that happened, each with its count, in
/// this order: failures, unchanged files, aligned files, read errors, write
/// errors, canceled files.
pub open spec fn report_of(tally: Tally) -> Seq<(Event, usize)> {
    report_line(tally, Event::Failed) + report_line(tally, Event::Unchanged) + report_line(
        tally,
        Event::Aligned,
    ) + report_line(tally, Event::ReadError) + report_line(tally, Event::WriteError)
        + report_line(tally, Event::Canceled)
}

/// Appends the line of the report for `event` to `lines`.
fn push_line(lines: &mut Vec<(Event, usize)>, tally: &Tally, event: Event)
    ensures
        final(lines)@ == old(lines)@ + report_line(*tally, event),
{
    let n: usize = tally.get(event);
    if n > 0 {
        lines.push((event, n));
        assert(lines@ =~= old(lines)@ + seq![(event, n)]);
    } else {
        assert(lines@ =~= old(lines)@ + Seq::<(Event, usize)>::empty());
    }
}

/// What the run reports at its end: each event that happened to a file,
/// with the number of files, in a fixed order. Events that did not happen
/// are left out.
pub fn report(tally: &Tally) -> (lines: Vec<(Event, usize)>)
    ensures
        lines@ == report_of(*tally),
{
    let mut lines: Vec<(Event, usize)> = Vec::new();
    assert(lines@ + report_line(*tally, Event::Failed) =~= report_line(*tally, Event::Failed));
    push_line(&mut lines, tally, Event::Failed);
    push_line(&mut lines, tally, Event::Unchanged);
    push_line(&mut lines, tally, Event::Aligned);
    push_line(&mut lines, tally, Event::ReadError);
    push_line(&mut lines, tally, Event::WriteError);
    push_line(&mut lines, tally, Event::Canceled);
    lines
}

} // verus!
