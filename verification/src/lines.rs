//! Splitting a document into lines.

use vstd::prelude::*;
use crate::newline::{count_pairs, lemma_count_pairs_skip, lemma_no_crlf, NewlineStyle};
use crate::text::{
    copy_range, free_of, lemma_occurs_in_part, lemma_width_subrange, occurs_in, text_width, texts,
};

verus! {

/// The number of characters of `s` before its first line feed; the length
/// of `s` where it has none.
pub open spec fn line_len(s: Seq<char>) -> int
    decreases s.len(),
{
    if s.len() == 0 || s[0] == '\n' {
        0
    } else {
        1 + line_len(s.drop_first())
    }
}

/// `line` without the carriage return at its end, if it has one.
pub open spec fn strip_cr(line: Seq<char>) -> Seq<char> {
    if line.len() > 0 && line.last() == '\r' {
        line.drop_last()
    } else {
        line
    }
}

/// The lines of `s`. A line ends at a line feed; the line feed, and a
/// carriage return directly before it, are not part of the line. What
/// follows the last line feed is a line too, unless it is empty; a carriage
/// return at its end stays. A carriage return alone ends no line: a text in
/// which carriage returns alone end the lines is one line.
pub open spec fn split_lines(s: Seq<char>) -> Seq<Seq<char>>
    decreases s.len(),
{
    let n = line_len(s);
    if s.len() == 0 {
        Seq::empty()
    } else if n < 0 || n >= s.len() {
        seq![s]
    } else {
        seq![strip_cr(s.take(n))] + split_lines(s.skip(n + 1))
    }
}

/// `line_len` stays within the text, stops at a line feed and passes none.
pub proof fn lemma_line_len(s: Seq<char>)
    ensures
        0 <= line_len(s) <= s.len(),
        line_len(s) < s.len() ==> s[line_len(s)] == '\n',
        forall|k: int| 0 <= k < line_len(s) ==> s[k] != '\n',
    decreases s.len(),
{
    if s.len() == 0 || s[0] == '\n' {
    } else {
        lemma_line_len(s.drop_first());
        assert forall|k: int| 0 <= k < line_len(s) implies s[k] != '\n' by {
            if k > 0 {
                assert(s.drop_first()[k - 1] == s[k]);
            }
        }
    }
}

/// The line length is the least index of a line feed.
pub proof fn lemma_line_len_is(s: Seq<char>, n: int)
    requires
        0 <= n <= s.len(),
        forall|k: int| 0 <= k < n ==> s[k] != '\n',
        n < s.len() ==> s[n] == '\n',
    ensures
        line_len(s) == n,
    decreases s.len(),
{
    if s.len() == 0 || s[0] == '\n' {
    } else {
        let t = s.drop_first();
        assert forall|k: int| 0 <= k < n - 1 implies t[k] != '\n' by {
            assert(t[k] == s[k + 1]);
        }
        lemma_line_len_is(t, n - 1);
    }
}

/// A text has lines exactly when it is not empty. No line holds a line
/// feed. Where the text does not end in a line feed, its last line is not
/// empty and ends as the text ends.
pub proof fn lemma_split_lines(s: Seq<char>)
    ensures
        split_lines(s).len() > 0 <==> s.len() > 0,
        forall|i: int|
            0 <= i < split_lines(s).len() ==> free_of(#[trigger] split_lines(s)[i], '\n'),
        s.len() > 0 && s.last() != '\n' ==> split_lines(s).last().len() > 0 && split_lines(
            s,
        ).last().last() == s.last(),
    decreases s.len(),
{
    let n = line_len(s);
    lemma_line_len(s);
    if s.len() == 0 {
    } else if n >= s.len() {
        assert(split_lines(s)[0] == s);
    } else {
        let first = strip_cr(s.take(n));
        let rest = s.skip(n + 1);
        lemma_split_lines(rest);
        let lines = split_lines(s);
        assert forall|i: int| 0 <= i < lines.len() implies free_of(#[trigger] lines[i], '\n') by {
            if i == 0 {
                assert(lines[0] == first);
                assert forall|k: int| 0 <= k < first.len() implies first[k] != '\n' by {
                    assert(first[k] == s[k]);
                }
            } else {
                assert(lines[i] == split_lines(rest)[i - 1]);
            }
        }
        if s.last() != '\n' {
            assert(rest.len() > 0);
            assert(rest.last() == s.last());
            assert(lines.last() == split_lines(rest).last());
        }
    }
}

/// Splits `doc` into its lines.
pub fn lines_of(doc: &[char]) -> (lines: Vec<Vec<char>>)
    ensures
        texts(lines@) == split_lines(doc@),
        forall|i: int|
            0 <= i < lines.len() ==> text_width(#[trigger] lines[i]@) <= text_width(doc@),
{
    let mut lines: Vec<Vec<char>> = Vec::new();
    let mut start: usize = 0;
    proof {
        assert(doc@.skip(0) =~= doc@);
        assert(texts(lines@) + split_lines(doc@) =~= split_lines(doc@));
    }
    while start < doc.len()
        invariant
            start <= doc.len(),
            split_lines(doc@) == texts(lines@) + split_lines(doc@.skip(start as int)),
            forall|i: int|
                0 <= i < lines.len() ==> text_width(#[trigger] lines[i]@) <= text_width(doc@),
        decreases doc.len() - start,
    {
        let ghost tail = doc@.skip(start as int);
        let mut end: usize = start;
        while end < doc.len() && doc[end] != '\n'
            invariant
                start <= end <= doc.len(),
                forall|k: int| start <= k < end ==> doc@[k] != '\n',
            decreases doc.len() - end,
        {
            end += 1;
        }
        proof {
            assert forall|k: int| 0 <= k < end - start implies tail[k] != '\n' by {
                assert(tail[k] == doc@[start + k]);
            }
            lemma_line_len_is(tail, end - start);
            assert(tail.take(end - start) =~= doc@.subrange(start as int, end as int));
        }
        if end == doc.len() {
            let line = copy_range(doc, start, end);
            proof {
                lemma_width_subrange(doc@, start as int, end as int);
                assert(line@ =~= tail);
                assert(texts(lines@.push(line)) =~= texts(lines@) + seq![tail]);
                assert(split_lines(doc@.skip(end as int)) =~= Seq::<Seq<char>>::empty());
            }
            lines.push(line);
            start = end;
        } else {
            let stop: usize = if end > start && doc[end - 1] == '\r' {
                end - 1
            } else {
                end
            };
            let line = copy_range(doc, start, stop);
            proof {
                lemma_width_subrange(doc@, start as int, stop as int);
                assert(line@ =~= strip_cr(tail.take(end - start)));
                assert(tail.skip(end - start + 1) =~= doc@.skip(end + 1));
                assert(texts(lines@.push(line)) + split_lines(doc@.skip(end + 1)) =~= texts(lines@)
                    + split_lines(tail));
            }
            lines.push(line);
            start = end + 1;
        }
    }
    proof {
        assert(split_lines(doc@.skip(start as int)) =~= Seq::<Seq<char>>::empty());
    }
    lines
}

/// No line of a text holds what the text does not hold.
pub proof fn lemma_lines_hold_less(s: Seq<char>, pat: Seq<char>)
    requires
        !occurs_in(s, pat),
    ensures
        forall|i: int|
            0 <= i < split_lines(s).len() ==> !occurs_in(#[trigger] split_lines(s)[i], pat),
    decreases s.len(),
{
    let n = line_len(s);
    lemma_line_len(s);
    if s.len() == 0 {
    } else if n >= s.len() {
        assert(split_lines(s)[0] == s);
    } else {
        let first = strip_cr(s.take(n));
        let rest = s.skip(n + 1);
        if occurs_in(rest, pat) {
            assert(rest =~= s.subrange(n + 1, s.len() as int));
            lemma_occurs_in_part(s, n + 1, s.len() as int, pat);
        }
        lemma_lines_hold_less(rest, pat);
        assert forall|i: int| 0 <= i < split_lines(s).len() implies !occurs_in(
            #[trigger] split_lines(s)[i],
            pat,
        ) by {
            if i == 0 {
                assert(split_lines(s)[0] == first);
                if occurs_in(first, pat) {
                    assert(first =~= s.subrange(0, first.len() as int));
                    lemma_occurs_in_part(s, 0, first.len() as int, pat);
                }
            } else {
                assert(split_lines(s)[i] == split_lines(rest)[i - 1]);
            }
        }
    }
}

/// The line holds no line feed and does not end in a carriage return: it
/// stays as it is where a line feed is put after it and the text is split
/// again.
pub open spec fn tame(line: Seq<char>) -> bool {
    free_of(line, '\n') && (line.len() == 0 || line.last() != '\r')
}

/// Where no carriage return stands directly before a line feed, every line
/// that a line feed ends is tame: all lines but the last, and the last too
/// where the text ends in a line feed.
pub proof fn lemma_lines_tame(s: Seq<char>)
    requires
        count_pairs(s, NewlineStyle::CRLF) == 0,
    ensures
        forall|i: int| 0 <= i < split_lines(s).len() - 1 ==> tame(#[trigger] split_lines(s)[i]),
        s.len() > 0 && s.last() == '\n' ==> tame(split_lines(s).last()),
    decreases s.len(),
{
    let n = line_len(s);
    lemma_line_len(s);
    if s.len() > 0 && n < s.len() {
        let rest = s.skip(n + 1);
        let lines = split_lines(s);
        if n > 0 {
            lemma_no_crlf(s, n - 1);
        }
        assert(strip_cr(s.take(n)) == s.take(n));
        assert(lines[0] == s.take(n));
        assert(tame(s.take(n)));
        lemma_count_pairs_skip(s, n + 1, NewlineStyle::CRLF);
        lemma_lines_tame(rest);
        assert(lines.drop_first() =~= split_lines(rest));
        assert forall|i: int| 0 <= i < lines.len() - 1 implies tame(#[trigger] lines[i]) by {
            if i > 0 {
                assert(lines[i] == split_lines(rest)[i - 1]);
            }
        }
        if s.last() == '\n' {
            if rest.len() > 0 {
                assert(rest.last() == s.last());
                assert(lines.last() == split_lines(rest).last());
            } else {
                assert(lines =~= seq![s.take(n)]);
            }
        }
    }
}

/// The lines of a text that ends in a line feed, or is empty, and of a
/// text put after it are the lines of the first and then the lines of the
/// second.
pub proof fn lemma_split_add(a: Seq<char>, b: Seq<char>)
    requires
        a.len() == 0 || a.last() == '\n',
    ensures
        split_lines(a + b) == split_lines(a) + split_lines(b),
    decreases a.len(),
{
    if a.len() == 0 {
        assert(a + b =~= b);
        assert(split_lines(a) + split_lines(b) =~= split_lines(b));
    } else {
        let n = line_len(a);
        let all = a + b;
        lemma_line_len(a);
        assert(a[a.len() - 1] == '\n');
        assert(n < a.len());
        assert forall|k: int| 0 <= k < n implies all[k] != '\n' by {
            assert(all[k] == a[k]);
        }
        assert(all[n] == a[n]);
        lemma_line_len_is(all, n);
        let rest = a.skip(n + 1);
        if rest.len() > 0 {
            assert(rest.last() == a.last());
        }
        lemma_split_add(rest, b);
        assert(all.take(n) =~= a.take(n));
        assert(all.skip(n + 1) =~= rest + b);
        assert(split_lines(all) =~= seq![strip_cr(a.take(n))] + (split_lines(rest) + split_lines(
            b,
        )));
        assert(split_lines(a) =~= seq![strip_cr(a.take(n))] + split_lines(rest));
    }
}

/// A line with a line feed after it, and a carriage return between the
/// two or not, splits into the line, provided that the line holds no line
/// feed and that the line feed does not come to stand after a carriage
/// return that ends the line.
pub proof fn lemma_split_one(line: Seq<char>, newline: Seq<char>)
    requires
        free_of(line, '\n'),
        newline == seq!['\n'] && tame(line) || newline == seq!['\r', '\n'],
    ensures
        split_lines(line + newline) == seq![line],
{
    let text = line + newline;
    let n = text.len() - 1;
    assert forall|k: int| 0 <= k < n implies text[k] != '\n' by {
        if k < line.len() {
            assert(text[k] == line[k]);
        }
    }
    lemma_line_len_is(text, n);
    assert(text.skip(n + 1) =~= Seq::<char>::empty());
    assert(split_lines(text.skip(n + 1)) =~= Seq::<Seq<char>>::empty());
    if newline.len() == 2 {
        assert(text.take(n).last() == '\r');
        assert(text.take(n).drop_last() =~= line);
    } else {
        assert(text.take(n) =~= line);
    }
    assert(split_lines(text) =~= seq![line]);
}

} // verus!
