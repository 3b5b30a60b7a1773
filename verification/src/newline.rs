//! The line terminator that a document mostly uses.

use vstd::prelude::*;
use vstd::std_specs::ops::AddSpecImpl;
use crate::text::{chars_of, free_of};

verus! {

/// A line terminator.
#[derive(Clone, Copy, Debug, PartialEq, Eq, Structural)]
pub enum NewlineStyle {
    /// A lone carriage return.
    CR,
    /// A lone line feed.
    LF,
    /// A carriage return followed by a line feed.
    CRLF,
}

impl NewlineStyle {
    /// The characters of the terminator.
    pub open spec fn terminator(self) -> Seq<char> {
        match self {
            NewlineStyle::CR => seq!['\r'],
            NewlineStyle::LF => seq!['\n'],
            NewlineStyle::CRLF => seq!['\r', '\n'],
        }
    }

    /// The terminator as a string.
    pub fn to_string(&self) -> (s: String)
        ensures
            s@ == self.terminator(),
    {
        proof {
            reveal_strlit("\r");
            reveal_strlit("\n");
            reveal_strlit("\r\n");
        }
        let s = match self {
            NewlineStyle::CR => "\r".to_owned(),
            NewlineStyle::LF => "\n".to_owned(),
            NewlineStyle::CRLF => "\r\n".to_owned(),
        };
        assert(s@ =~= self.terminator());
        s
    }

    /// The terminator as characters.
    pub fn to_chars(&self) -> (v: Vec<char>)
        ensures
            v@ == self.terminator(),
    {
        let mut v: Vec<char> = Vec::new();
        match self {
            NewlineStyle::CR => {
                v.push('\r');
            },
            NewlineStyle::LF => {
                v.push('\n');
            },
            NewlineStyle::CRLF => {
                v.push('\r');
                v.push('\n');
            },
        }
        assert(v@ =~= self.terminator());
        v
    }
}

/// What a pair of neighbouring characters counts as. A carriage return
/// with a line feed after it is a CRLF, and with anything else after it a
/// CR. A line feed with anything but a carriage return before it is an LF:
/// the line feed of a CRLF does not count again. Every other pair counts
/// as nothing.
pub open spec fn pair_style(a: char, b: char) -> Option<NewlineStyle> {
    if a == '\r' {
        if b == '\n' {
            Some(NewlineStyle::CRLF)
        } else {
            Some(NewlineStyle::CR)
        }
    } else if b == '\n' {
        Some(NewlineStyle::LF)
    } else {
        None
    }
}

/// What the character with which a text begins counts as: a line feed is
/// an LF, since no carriage return stands before it.
pub open spec fn first_style(c: char) -> Option<NewlineStyle> {
    if c == '\n' {
        Some(NewlineStyle::LF)
    } else {
        None
    }
}

/// The number of terminators of `style` in `s`: the first character and
/// every pair of neighbouring characters that count as `style`. So a line
/// feed counts as an LF wherever no carriage return stands directly before
/// it, a carriage return with a line feed after it as a CRLF, and a
/// carriage return with another character after it as a CR. A carriage
/// return that ends the text counts as nothing: nothing after it tells
/// which of the two it is.
pub open spec fn count_pairs(s: Seq<char>, style: NewlineStyle) -> nat
    decreases s.len(),
{
    if s.len() == 0 {
        0
    } else if s.len() == 1 {
        if first_style(s[0]) == Some(style) {
            1
        } else {
            0
        }
    } else {
        count_pairs(s.drop_last(), style) + if pair_style(s[s.len() - 2], s[s.len() - 1]) == Some(
            style,
        ) {
            1nat
        } else {
            0nat
        }
    }
}

/// The style with strictly more occurrences than each of the other two;
/// LF where there is none.
pub open spec fn dominant(cr: nat, lf: nat, crlf: nat) -> NewlineStyle {
    if cr > lf && cr > crlf {
        NewlineStyle::CR
    } else if crlf > cr && crlf > lf {
        NewlineStyle::CRLF
    } else {
        NewlineStyle::LF
    }
}

/// The dominant line terminator of the text `s`.
pub open spec fn newline_style(s: Seq<char>) -> NewlineStyle {
    dominant(
        count_pairs(s, NewlineStyle::CR),
        count_pairs(s, NewlineStyle::LF),
        count_pairs(s, NewlineStyle::CRLF),
    )
}

/// A tally of line terminators by style.
#[derive(Clone, Copy, Debug)]
pub struct NewlineCount {
    pub cr: usize,
    pub lf: usize,
    pub crlf: usize,
}

impl NewlineCount {
    /// A tally with the given counts.
    pub fn new(cr: usize, lf: usize, crlf: usize) -> (c: Self)
        ensures
            c.cr == cr,
            c.lf == lf,
            c.crlf == crlf,
    {
        Self { cr, lf, crlf }
    }

    /// The tally counts the pairs of `s`.
    pub open spec fn counts(self, s: Seq<char>) -> bool {
        &&& self.cr == count_pairs(s, NewlineStyle::CR)
        &&& self.lf == count_pairs(s, NewlineStyle::LF)
        &&& self.crlf == count_pairs(s, NewlineStyle::CRLF)
    }

    /// The style that the tally is dominated by.
    pub fn max(self) -> (style: NewlineStyle)
        ensures
            style == dominant(self.cr as nat, self.lf as nat, self.crlf as nat),
    {
        let Self { cr, lf, crlf } = self;
        if cr > lf && cr > crlf {
            NewlineStyle::CR
        } else if lf > cr && lf > crlf {
            NewlineStyle::LF
        } else if crlf > cr && crlf > lf {
            NewlineStyle::CRLF
        } else {
            NewlineStyle::LF
        }
    }
}

impl core::ops::Add for NewlineCount {
    type Output = Self;

    fn add(self, rhs: Self) -> (sum: Self) {
        Self { cr: self.cr + rhs.cr, lf: self.lf + rhs.lf, crlf: self.crlf + rhs.crlf }
    }
}

impl AddSpecImpl for NewlineCount {
    open spec fn obeys_add_spec() -> bool {
        true
    }

    open spec fn add_req(self, rhs: Self) -> bool {
        &&& self.cr + rhs.cr <= usize::MAX
        &&& self.lf + rhs.lf <= usize::MAX
        &&& self.crlf + rhs.crlf <= usize::MAX
    }

    open spec fn add_spec(self, rhs: Self) -> Self {
        NewlineCount {
            cr: (self.cr + rhs.cr) as usize,
            lf: (self.lf + rhs.lf) as usize,
            crlf: (self.crlf + rhs.crlf) as usize,
        }
    }
}

/// No more pairs count than there are.
pub proof fn lemma_count_pairs_bound(s: Seq<char>)
    ensures
        count_pairs(s, NewlineStyle::CR) + count_pairs(s, NewlineStyle::LF) + count_pairs(
            s,
            NewlineStyle::CRLF,
        ) <= s.len(),
    decreases s.len(),
{
    if s.len() >= 2 {
        lemma_count_pairs_bound(s.drop_last());
    }
}

/// Tallies the terminators of `s`.
pub fn count_newlines(s: &[char]) -> (total: NewlineCount)
    ensures
        total.counts(s@),
{
    if s.len() == 0 {
        return NewlineCount::new(0, 0, 0);
    }
    let mut total = if s[0] == '\n' {
        NewlineCount::new(0, 1, 0)
    } else {
        NewlineCount::new(0, 0, 0)
    };
    let mut i: usize = 1;
    while i < s.len()
        invariant
            1 <= i <= s.len(),
            total.counts(s@.take(i as int)),
        decreases s.len() - i,
    {
        proof {
            assert(s@.take(i + 1).drop_last() =~= s@.take(i as int));
            lemma_count_pairs_bound(s@.take(i as int));
        }
        let a = s[i - 1];
        let b = s[i];
        let one = if a == '\r' {
            if b == '\n' {
                NewlineCount::new(0, 0, 1)
            } else {
                NewlineCount::new(1, 0, 0)
            }
        } else if b == '\n' {
            NewlineCount::new(0, 1, 0)
        } else {
            NewlineCount::new(0, 0, 0)
        };
        total = total + one;
        i += 1;
    }
    proof {
        assert(s@.take(i as int) =~= s@);
    }
    total
}

/// The dominant line terminator of `s`: the style of which `s` has more
/// terminators than of each of the other two, LF where no style has that
/// majority.
pub fn detect_newline_style(s: &str) -> (style: NewlineStyle)
    ensures
        style == newline_style(s@),
{
    let chars = chars_of(s);
    count_newlines(&chars).max()
}

/// A text that no pair of neighbouring characters of which counts as a
/// CRLF has no carriage return directly before a line feed.
pub proof fn lemma_no_crlf(s: Seq<char>, i: int)
    requires
        count_pairs(s, NewlineStyle::CRLF) == 0,
        0 <= i < s.len() - 1,
    ensures
        !(s[i] == '\r' && s[i + 1] == '\n'),
    decreases s.len(),
{
    if i < s.len() - 2 {
        lemma_no_crlf(s.drop_last(), i);
    }
}

/// What is cut off the front of a text has no more terminators with a
/// carriage return than the text.
pub proof fn lemma_count_pairs_skip(s: Seq<char>, n: int, style: NewlineStyle)
    requires
        0 <= n <= s.len(),
        style != NewlineStyle::LF,
    ensures
        count_pairs(s.skip(n), style) <= count_pairs(s, style),
    decreases s.len(),
{
    if s.len() - n >= 2 {
        lemma_count_pairs_skip(s.drop_last(), n, style);
        assert(s.skip(n).drop_last() =~= s.drop_last().skip(n));
    }
}

/// In a text without a carriage return, line feed is the dominant
/// terminator.
pub proof fn lemma_no_cr_is_lf(s: Seq<char>)
    requires
        free_of(s, '\r'),
    ensures
        count_pairs(s, NewlineStyle::CR) == 0,
        count_pairs(s, NewlineStyle::CRLF) == 0,
        newline_style(s) == NewlineStyle::LF,
    decreases s.len(),
{
    if s.len() >= 2 {
        assert forall|k: int| 0 <= k < s.drop_last().len() implies s.drop_last()[k] != '\r' by {
            assert(s.drop_last()[k] == s[k]);
        }
        lemma_no_cr_is_lf(s.drop_last());
    }
}

/// Every line feed of `s` stands directly after a carriage return.
pub open spec fn all_crlf(s: Seq<char>) -> bool {
    forall|i: int| 0 <= i < s.len() && #[trigger] s[i] == '\n' ==> i > 0 && s[i - 1] == '\r'
}

/// The terminators of two texts put together are the terminators of each,
/// but that the first character of the second text counts by the
/// character before it, not as the first of a text.
pub proof fn lemma_count_pairs_add(a: Seq<char>, b: Seq<char>, style: NewlineStyle)
    requires
        a.len() > 0,
        b.len() > 0,
    ensures
        count_pairs(a + b, style) + (if first_style(b[0]) == Some(style) {
            1nat
        } else {
            0nat
        }) == count_pairs(a, style) + count_pairs(b, style) + if pair_style(a.last(), b[0])
            == Some(style) {
            1nat
        } else {
            0nat
        },
    decreases b.len(),
{
    let all = a + b;
    assert(all.drop_last() =~= a + b.drop_last());
    if b.len() == 1 {
        assert(a + b.drop_last() =~= a);
        assert(all[all.len() - 2] == a.last());
    } else {
        lemma_count_pairs_add(a, b.drop_last(), style);
        assert(all[all.len() - 2] == b[b.len() - 2]);
        assert(b.drop_last()[0] == b[0]);
    }
}

/// A text without a line feed has no pair that counts as a CRLF.
pub proof fn lemma_no_lf_no_crlf(s: Seq<char>)
    requires
        forall|k: int| 0 <= k < s.len() ==> s[k] != '\n',
    ensures
        count_pairs(s, NewlineStyle::CRLF) == 0,
    decreases s.len(),
{
    if s.len() >= 2 {
        assert forall|k: int| 0 <= k < s.drop_last().len() implies s.drop_last()[k] != '\n' by {
            assert(s.drop_last()[k] == s[k]);
        }
        lemma_no_lf_no_crlf(s.drop_last());
    }
}

/// A text without a line feed has no pair that counts as an LF.
pub proof fn lemma_no_lf_no_lf_pairs(s: Seq<char>)
    requires
        forall|k: int| 0 <= k < s.len() ==> s[k] != '\n',
    ensures
        count_pairs(s, NewlineStyle::LF) == 0,
    decreases s.len(),
{
    if s.len() >= 2 {
        assert forall|k: int| 0 <= k < s.drop_last().len() implies s.drop_last()[k] != '\n' by {
            assert(s.drop_last()[k] == s[k]);
        }
        lemma_no_lf_no_lf_pairs(s.drop_last());
    }
}

/// A line feed after a text that holds no line feed adds one terminator:
/// a CRLF where the text ends in a carriage return, and an LF where it
/// does not. The pairs that count as a CR stay as they are.
pub proof fn lemma_count_pairs_push_lf(s: Seq<char>)
    requires
        forall|k: int| 0 <= k < s.len() ==> s[k] != '\n',
    ensures
        count_pairs(s.push('\n'), NewlineStyle::CR) == count_pairs(s, NewlineStyle::CR),
        count_pairs(s.push('\n'), NewlineStyle::CRLF) == if s.len() > 0 && s.last() == '\r' {
            1nat
        } else {
            0nat
        },
        count_pairs(s.push('\n'), NewlineStyle::LF) == if s.len() > 0 && s.last() == '\r' {
            0nat
        } else {
            1nat
        },
{
    assert(s.push('\n').drop_last() =~= s);
    lemma_no_lf_no_crlf(s);
    lemma_no_lf_no_lf_pairs(s);
    if s.len() > 0 {
        assert(s.push('\n')[s.len() - 1] == s.last());
        assert(s[s.len() - 1] != '\n');
    }
}

} // verus!
