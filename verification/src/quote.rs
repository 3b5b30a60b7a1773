//! The text between the quotes of a delimiter list.

use vstd::prelude::*;
use crate::text::{chars_of, copy_range, string_of};

verus! {

/// The index of the first unescaped quote of `s` at or after `i`, where
/// `escaped` tells whether the character at `i` is escaped. A backslash
/// that is not itself escaped escapes the character after it, whatever
/// that is; an escaped character is passed over.
pub open spec fn closing_quote_from(s: Seq<char>, i: int, escaped: bool) -> Option<int>
    decreases s.len() - i,
{
    if i < 0 || i >= s.len() {
        None
    } else if escaped {
        closing_quote_from(s, i + 1, false)
    } else if s[i] == '\\' {
        closing_quote_from(s, i + 1, true)
    } else if s[i] == '"' {
        Some(i)
    } else {
        closing_quote_from(s, i + 1, false)
    }
}

/// The index of the first unescaped quote of `s`.
pub open spec fn closing_quote(s: Seq<char>) -> Option<int> {
    closing_quote_from(s, 0, false)
}

/// The text of `s` before its first unescaped quote, escapes kept as they
/// are written; all of `s` where it has no such quote.
pub open spec fn quoted(s: Seq<char>) -> Seq<char> {
    match closing_quote(s) {
        Some(i) => s.take(i),
        None => s,
    }
}

/// Looks for the first unescaped quote of `s` at or after `start`.
pub fn find_closing_quote(s: &[char], start: usize) -> (r: Option<usize>)
    requires
        start <= s.len(),
    ensures
        match r {
            Some(e) => start <= e < s.len() && closing_quote(s@.skip(start as int)) == Some(
                e - start,
            ),
            None => closing_quote(s@.skip(start as int)) is None,
        },
{
    let ghost tail = s@.skip(start as int);
    let mut i: usize = start;
    let mut escaped = false;
    while i < s.len()
        invariant
            start <= i <= s.len(),
            tail == s@.skip(start as int),
            closing_quote_from(tail, i - start, escaped) == closing_quote(tail),
        decreases s.len() - i,
    {
        let c = s[i];
        proof {
            assert(tail[i - start] == c);
        }
        if escaped {
            escaped = false;
        } else if c == '\\' {
            escaped = true;
        } else if c == '"' {
            return Some(i);
        }
        i += 1;
    }
    None
}

/// The text of `s` up to its first unescaped quote: `s` is what follows an
/// opening quote. A backslash escapes the character after it, and both
/// stay in the result. Where no unescaped quote follows, all of `s` is
/// returned.
pub fn extract_quote(s: &str) -> (literal: String)
    ensures
        literal@ == quoted(s@),
{
    let chars = chars_of(s);
    proof {
        assert(chars@.skip(0) =~= chars@);
    }
    match find_closing_quote(&chars, 0) {
        Some(e) => {
            let part = copy_range(&chars, 0, e);
            string_of(&part)
        },
        None => string_of(&chars),
    }
}

} // verus!
