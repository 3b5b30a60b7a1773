//! The outcomes that end the pass over a document early.

use vstd::prelude::*;
use vstd::string::StringExecFns;

verus! {

/// The character that stands for the number `d`, which is less than ten.
pub open spec fn digit(d: nat) -> char {
    if d == 0 {
        '0'
    } else if d == 1 {
        '1'
    } else if d == 2 {
        '2'
    } else if d == 3 {
        '3'
    } else if d == 4 {
        '4'
    } else if d == 5 {
        '5'
    } else if d == 6 {
        '6'
    } else if d == 7 {
        '7'
    } else if d == 8 {
        '8'
    } else {
        '9'
    }
}

/// The number `n` in decimal digits, without leading zeros.
pub open spec fn decimal(n: nat) -> Seq<char>
    decreases n,
{
    if n < 10 {
        seq![digit(n)]
    } else {
        decimal(n / 10).push(digit(n % 10))
    }
}

/// The character that stands for `d`.
fn digit_char(d: usize) -> (c: char)
    requires
        d < 10,
    ensures
        c == digit(d as nat),
{
    if d == 0 {
        '0'
    } else if d == 1 {
        '1'
    } else if d == 2 {
        '2'
    } else if d == 3 {
        '3'
    } else if d == 4 {
        '4'
    } else if d == 5 {
        '5'
    } else if d == 6 {
        '6'
    } else if d == 7 {
        '7'
    } else if d == 8 {
        '8'
    } else {
        '9'
    }
}

/// Appends `n` in decimal digits to `s`.
pub fn push_decimal(s: &mut String, n: usize)
    ensures
        final(s)@ == old(s)@ + decimal(n as nat),
    decreases n,
{
    if n >= 10 {
        push_decimal(s, n / 10);
    }
    s.push(digit_char(n % 10));
    proof {
        if n >= 10 {
            assert(old(s)@ + decimal((n / 10) as nat).push(digit((n % 10) as nat)) =~= (old(s)@
                + decimal((n / 10) as nat)).push(digit((n % 10) as nat)));
        } else {
            assert(old(s)@ + seq![digit(n as nat)] =~= old(s)@.push(digit(n as nat)));
        }
    }
}

/// Why a line that holds the directive marker is not a directive.
#[derive(Clone, Copy, Debug, PartialEq, Eq, Structural)]
pub enum InvalidAlignmentStatement {
    /// The directive is cut short. The scanner does not give this reason:
    /// it reports a line that ends too early by what the line lacks there.
    UnexpectedEOF,
    /// The marker is not followed by a space.
    MissingSpace,
    /// The opening quote has no unescaped closing quote on the line.
    UnclosedQuotes,
    /// The delimiter list does not begin with a quote.
    MissingQuote,
}

impl InvalidAlignmentStatement {
    /// The fault lies in the delimiter list of the directive, not in what
    /// stands before the list.
    pub open spec fn in_list(self) -> bool {
        self == InvalidAlignmentStatement::MissingQuote || self
            == InvalidAlignmentStatement::UnclosedQuotes
    }

    /// Whether the fault lies in the delimiter list of the directive.
    pub fn is_in_list(&self) -> (b: bool)
        ensures
            b == self.in_list(),
    {
        match self {
            InvalidAlignmentStatement::MissingQuote => true,
            InvalidAlignmentStatement::UnclosedQuotes => true,
            _ => false,
        }
    }

    /// The reason in words.
    pub open spec fn text(self) -> Seq<char> {
        match self {
            InvalidAlignmentStatement::UnexpectedEOF => "unexpected end-of-file"@,
            InvalidAlignmentStatement::MissingSpace => "missing space"@,
            InvalidAlignmentStatement::UnclosedQuotes => "unclosed quote"@,
            InvalidAlignmentStatement::MissingQuote => "missing quote"@,
        }
    }

    /// The reason in words.
    pub fn to_string(&self) -> (s: String)
        ensures
            s@ == self.text(),
    {
        match self {
            InvalidAlignmentStatement::UnexpectedEOF => "unexpected end-of-file".to_owned(),
            InvalidAlignmentStatement::MissingSpace => "missing space".to_owned(),
            InvalidAlignmentStatement::UnclosedQuotes => "unclosed quote".to_owned(),
            InvalidAlignmentStatement::MissingQuote => "missing quote".to_owned(),
        }
    }
}

/// Why a document was not aligned. Either way nothing of the document's
/// output survives: the caller leaves the source as it is.
#[derive(Clone, Copy, Debug, PartialEq, Eq, Structural)]
pub enum AlignmentError {
    /// The document asks to be left alone.
    FileCanceled,
    /// A malformed directive: zero-based line, zero-based byte column
    /// within the line, and the reason.
    InvalidAlignmentStatement(usize, usize, InvalidAlignmentStatement),
}

impl AlignmentError {
    /// The outcome in words: `FileCanceled`, or
    /// `InvalidAlignmentStatement(line, column, reason)` with the line and
    /// the column in decimal digits and the reason in words.
    pub open spec fn text(self) -> Seq<char> {
        match self {
            AlignmentError::FileCanceled => "FileCanceled"@,
            AlignmentError::InvalidAlignmentStatement(line, column, reason) => {
                "InvalidAlignmentStatement("@ + decimal(line as nat) + ", "@ + decimal(
                    column as nat,
                ) + ", "@ + reason.text() + ")"@
            },
        }
    }

    /// The outcome in words.
    pub fn to_string(&self) -> (s: String)
        ensures
            s@ == self.text(),
    {
        match self {
            AlignmentError::FileCanceled => "FileCanceled".to_owned(),
            AlignmentError::InvalidAlignmentStatement(line, column, reason) => {
                let mut s = "InvalidAlignmentStatement(".to_owned();
                push_decimal(&mut s, *line);
                s.append(", ");
                push_decimal(&mut s, *column);
                s.append(", ");
                s.append(reason.to_string().as_str());
                s.append(")");
                s
            },
        }
    }

    /// A directive cut short at the given position.
    pub fn unexpected_eof(line: usize, column: usize) -> (e: Self)
        ensures
            e == AlignmentError::InvalidAlignmentStatement(
                line,
                column,
                InvalidAlignmentStatement::UnexpectedEOF,
            ),
    {
        Self::InvalidAlignmentStatement(line, column, InvalidAlignmentStatement::UnexpectedEOF)
    }

    /// A marker without the space after it.
    pub fn missing_space(line: usize, column: usize) -> (e: Self)
        ensures
            e == AlignmentError::InvalidAlignmentStatement(
                line,
                column,
                InvalidAlignmentStatement::MissingSpace,
            ),
    {
        Self::InvalidAlignmentStatement(line, column, InvalidAlignmentStatement::MissingSpace)
    }

    /// A delimiter list whose quote is never closed.
    pub fn unclosed_quotes(line: usize, column: usize) -> (e: Self)
        ensures
            e == AlignmentError::InvalidAlignmentStatement(
                line,
                column,
                InvalidAlignmentStatement::UnclosedQuotes,
            ),
    {
        Self::InvalidAlignmentStatement(line, column, InvalidAlignmentStatement::UnclosedQuotes)
    }

    /// A delimiter list that does not begin with a quote.
    pub fn missing_quote(line: usize, column: usize) -> (e: Self)
        ensures
            e == AlignmentError::InvalidAlignmentStatement(
                line,
                column,
                InvalidAlignmentStatement::MissingQuote,
            ),
    {
        Self::InvalidAlignmentStatement(line, column, InvalidAlignmentStatement::MissingQuote)
    }
}

} // verus!
