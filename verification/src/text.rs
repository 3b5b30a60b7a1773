//! Character sequences: widths, conversions, searching and tokenizing.
//!
//! The engine works on vectors of `char`; their views are `Seq<char>`, the
//! same model that `str` and `String` have.

use vstd::prelude::*;

verus! {

/// Taken on trust of the standard library: `String::push` appends the
/// character to the end of the string and leaves the rest as it is.
pub assume_specification[ String::push ](s: &mut String, c: char)
    ensures
        final(s)@ == old(s)@.push(c),
;

/// The number of bytes that `c` takes in UTF-8.
pub open spec fn char_width(c: char) -> nat {
    let v: u32 = c as u32;
    if v < 0x80 {
        1
    } else if v < 0x800 {
        2
    } else if v < 0x10000 {
        3
    } else {
        4
    }
}

/// The number of bytes that `s` takes in UTF-8: the length by which columns
/// are measured and error positions are reported.
pub open spec fn text_width(s: Seq<char>) -> nat
    decreases s.len(),
{
    if s.len() == 0 {
        0
    } else {
        text_width(s.drop_last()) + char_width(s.last())
    }
}

/// `n` space characters.
pub open spec fn spaces(n: nat) -> Seq<char> {
    Seq::new(n, |i: int| ' ')
}

/// The views of the elements of a vector of character vectors.
pub open spec fn texts(v: Seq<Vec<char>>) -> Seq<Seq<char>> {
    Seq::new(v.len(), |i: int| v[i]@)
}

/// Widths add up over concatenation.
pub proof fn lemma_width_concat(a: Seq<char>, b: Seq<char>)
    ensures
        text_width(a + b) == text_width(a) + text_width(b),
    decreases b.len(),
{
    if b.len() == 0 {
        assert(a + b =~= a);
    } else {
        assert((a + b).drop_last() =~= a + b.drop_last());
        assert((a + b).last() == b.last());
        lemma_width_concat(a, b.drop_last());
    }
}

/// A part of a text is no wider than the whole.
pub proof fn lemma_width_subrange(s: Seq<char>, i: int, j: int)
    requires
        0 <= i <= j <= s.len(),
    ensures
        text_width(s.subrange(i, j)) <= text_width(s),
{
    assert(s =~= s.subrange(0, i) + s.subrange(i, j) + s.subrange(j, s.len() as int));
    lemma_width_concat(s.subrange(0, i) + s.subrange(i, j), s.subrange(j, s.len() as int));
    lemma_width_concat(s.subrange(0, i), s.subrange(i, j));
}

/// Spaces are one byte wide each.
pub proof fn lemma_width_spaces(n: nat)
    ensures
        text_width(spaces(n)) == n,
    decreases n,
{
    if n > 0 {
        assert(spaces(n).drop_last() =~= spaces((n - 1) as nat));
        lemma_width_spaces((n - 1) as nat);
    }
}

/// The width is the length of the UTF-8 encoding.
pub proof fn lemma_width_is_encoded_len(s: Seq<char>)
    ensures
        text_width(s) == vstd::utf8::encode_utf8(s).len(),
    decreases s.len(),
{
    if s.len() > 0 {
        let head = s.take(1);
        assert(s =~= head + s.drop_first());
        lemma_width_concat(head, s.drop_first());
        assert(text_width(head.drop_last()) == 0);
        assert(head.last() == s[0]);
        vstd::utf8::char_is_scalar(s[0]);
        assert(vstd::utf8::encode_scalar(s[0] as u32).len() == char_width(s[0]));
        lemma_width_is_encoded_len(s.drop_first());
    }
}

/// The characters of a string slice.
pub fn chars_of(s: &str) -> (v: Vec<char>)
    ensures
        v@ == s@,
        text_width(v@) <= usize::MAX,
{
    let byte_len: usize = s.as_bytes().len();
    proof {
        lemma_width_is_encoded_len(s@);
    }
    let mut v: Vec<char> = Vec::with_capacity(byte_len);
    for c in it: s.chars()
        invariant
            v@ == it.seq().take(it.index() as int),
            it.seq() == s@,
    {
        v.push(c);
    }
    v
}

/// A string made of the given characters.
pub fn string_of(v: &[char]) -> (s: String)
    ensures
        s@ == v@,
{
    let mut s = String::new();
    let mut i: usize = 0;
    while i < v.len()
        invariant
            i <= v.len(),
            s@ == v@.take(i as int),
        decreases v.len() - i,
    {
        s.push(v[i]);
        i += 1;
    }
    s
}

/// The UTF-8 width of one character.
pub fn width_of_char(c: char) -> (n: usize)
    ensures
        n == char_width(c),
{
    let v: u32 = c as u32;
    if v < 0x80 {
        1
    } else if v < 0x800 {
        2
    } else if v < 0x10000 {
        3
    } else {
        4
    }
}

/// The UTF-8 width of the first `n` characters of a text.
pub fn width_upto(s: &[char], n: usize) -> (w: usize)
    requires
        n <= s.len(),
        text_width(s@) <= usize::MAX,
    ensures
        w == text_width(s@.take(n as int)),
{
    let mut w: usize = 0;
    let mut i: usize = 0;
    while i < n
        invariant
            i <= n <= s.len(),
            w == text_width(s@.take(i as int)),
            text_width(s@) <= usize::MAX,
        decreases n - i,
    {
        proof {
            assert(s@.take(i + 1).drop_last() =~= s@.take(i as int));
            lemma_width_subrange(s@, 0, i + 1);
        }
        w += width_of_char(s[i]);
        i += 1;
    }
    w
}

/// The UTF-8 width of a text.
pub fn width_of(s: &[char]) -> (w: usize)
    requires
        text_width(s@) <= usize::MAX,
    ensures
        w == text_width(s@),
{
    proof {
        assert(s@.take(s@.len() as int) =~= s@);
    }
    width_upto(s, s.len())
}

/// ASCII whitespace: space, tab, line feed, form feed and carriage return.
pub open spec fn is_blank(c: char) -> bool {
    c == ' ' || c == '\t' || c == '\n' || c == '\u{c}' || c == '\r'
}

/// Whether `c` is ASCII whitespace.
pub fn is_blank_char(c: char) -> (b: bool)
    ensures
        b == is_blank(c),
{
    c == ' ' || c == '\t' || c == '\n' || c == '\u{c}' || c == '\r'
}

/// The character `c` does not occur in `s`.
pub open spec fn free_of(s: Seq<char>, c: char) -> bool {
    forall|k: int| 0 <= k < s.len() ==> s[k] != c
}

/// `pat` occurs in `s` at index `i`.
pub open spec fn matches_at(s: Seq<char>, pat: Seq<char>, i: int) -> bool {
    0 <= i && i + pat.len() <= s.len() && s.subrange(i, i + pat.len()) == pat
}

/// `pat` occurs somewhere in `s`.
pub open spec fn occurs_in(s: Seq<char>, pat: Seq<char>) -> bool {
    exists|i: int| matches_at(s, pat, i)
}

/// The first index at or after `from` at which `pat` occurs in `s`.
pub open spec fn find_from(s: Seq<char>, pat: Seq<char>, from: int) -> Option<int>
    decreases s.len() + 1 - from,
{
    if from < 0 || from + pat.len() > s.len() {
        None
    } else if matches_at(s, pat, from) {
        Some(from)
    } else {
        find_from(s, pat, from + 1)
    }
}

/// The index of the first occurrence of `pat` in `s`.
pub open spec fn find(s: Seq<char>, pat: Seq<char>) -> Option<int> {
    find_from(s, pat, 0)
}

/// `find_from` returns the least matching index, and `None` only when
/// there is no match at or after `from`.
pub proof fn lemma_find_from(s: Seq<char>, pat: Seq<char>, from: int)
    requires
        0 <= from,
    ensures
        match find_from(s, pat, from) {
            Some(i) => from <= i && matches_at(s, pat, i) && forall|j: int|
                from <= j < i ==> !matches_at(s, pat, j),
            None => forall|j: int| from <= j ==> !matches_at(s, pat, j),
        },
    decreases s.len() + 1 - from,
{
    if from + pat.len() > s.len() {
    } else if matches_at(s, pat, from) {
    } else {
        lemma_find_from(s, pat, from + 1);
    }
}

/// `find` returns the least index at which `pat` occurs, and `None` exactly
/// when it does not occur.
pub proof fn lemma_find(s: Seq<char>, pat: Seq<char>)
    ensures
        find(s, pat) is Some <==> occurs_in(s, pat),
        find(s, pat) matches Some(i) ==> matches_at(s, pat, i) && forall|j: int|
            0 <= j < i ==> !matches_at(s, pat, j),
{
    lemma_find_from(s, pat, 0);
}

/// Where `pat` occurs at index `i`, its characters stand there.
pub proof fn lemma_match_char(s: Seq<char>, pat: Seq<char>, i: int, k: int)
    requires
        matches_at(s, pat, i),
        0 <= k < pat.len(),
    ensures
        s[i + k] == pat[k],
{
    assert(s.subrange(i, i + pat.len())[k] == s[i + k]);
}

/// Where the characters of `pat` stand from index `i` on, `pat` occurs
/// there.
pub proof fn lemma_match_from_chars(s: Seq<char>, pat: Seq<char>, i: int)
    requires
        0 <= i,
        i + pat.len() <= s.len(),
        forall|k: int| 0 <= k < pat.len() ==> s[i + k] == pat[k],
    ensures
        matches_at(s, pat, i),
{
    assert(s.subrange(i, i + pat.len()) =~= pat);
}

/// An index at which `pat` occurs and before which it does not is where
/// `find` finds it.
pub proof fn lemma_find_is(s: Seq<char>, pat: Seq<char>, i: int)
    requires
        matches_at(s, pat, i),
        forall|j: int| 0 <= j < i ==> !matches_at(s, pat, j),
    ensures
        find(s, pat) == Some(i),
{
    lemma_find(s, pat);
}

/// What occurs in a part of a text occurs in the text.
pub proof fn lemma_occurs_in_part(s: Seq<char>, a: int, b: int, pat: Seq<char>)
    requires
        0 <= a <= b <= s.len(),
        occurs_in(s.subrange(a, b), pat),
    ensures
        occurs_in(s, pat),
{
    let i = choose|i: int| matches_at(s.subrange(a, b), pat, i);
    assert(s.subrange(a + i, a + i + pat.len()) =~= s.subrange(a, b).subrange(i, i + pat.len()));
    assert(matches_at(s, pat, a + i));
}

/// Whether `pat` occurs in `s` at index `i`.
pub fn matches_here(s: &[char], pat: &[char], i: usize) -> (b: bool)
    ensures
        b == matches_at(s@, pat@, i as int),
{
    if pat.len() > s.len() || i > s.len() - pat.len() {
        return false;
    }
    let mut k: usize = 0;
    while k < pat.len()
        invariant
            k <= pat.len(),
            i + pat.len() <= s.len(),
            s@.subrange(i as int, i + k) == pat@.take(k as int),
        decreases pat.len() - k,
    {
        if s[i + k] != pat[k] {
            proof {
                assert(s@.subrange(i as int, i + pat.len())[k as int] == s@[i + k]);
            }
            return false;
        }
        proof {
            assert(s@.subrange(i as int, i + k + 1) =~= s@.subrange(i as int, i + k).push(
                s@[i + k],
            ));
            assert(pat@.take(k + 1) =~= pat@.take(k as int).push(pat@[k as int]));
        }
        k += 1;
    }
    proof {
        assert(pat@.take(k as int) =~= pat@);
    }
    true
}

/// `s` ends with `tail`.
pub open spec fn ends_with(s: Seq<char>, tail: Seq<char>) -> bool {
    matches_at(s, tail, s.len() - tail.len())
}

/// The index of the first occurrence of `pat` in `s`.
pub fn find_text(s: &[char], pat: &[char]) -> (r: Option<usize>)
    ensures
        match r {
            Some(i) => find(s@, pat@) == Some(i as int),
            None => find(s@, pat@) is None,
        },
{
    if pat.len() > s.len() {
        return None;
    }
    let last: usize = s.len() - pat.len();
    let mut i: usize = 0;
    loop
        invariant
            i <= last,
            last == s.len() - pat.len(),
            find_from(s@, pat@, i as int) == find(s@, pat@),
        decreases last - i,
    {
        if matches_here(s, pat, i) {
            return Some(i);
        }
        if i == last {
            assert(find_from(s@, pat@, i + 1) is None);
            return None;
        }
        i += 1;
    }
}

/// The maximal runs of non-blank characters of `s`, in order.
pub open spec fn tokens(s: Seq<char>) -> Seq<Seq<char>>
    decreases s.len(),
{
    if s.len() == 0 {
        Seq::empty()
    } else {
        let before = tokens(s.drop_last());
        if is_blank(s.last()) {
            before
        } else if s.len() >= 2 && !is_blank(s[s.len() - 2]) {
            before.drop_last().push(before.last().push(s.last()))
        } else {
            before.push(seq![s.last()])
        }
    }
}

/// The texts of `parts` with one space between neighbours.
pub open spec fn join_spaced(parts: Seq<Seq<char>>) -> Seq<char>
    decreases parts.len(),
{
    if parts.len() == 0 {
        Seq::empty()
    } else if parts.len() == 1 {
        parts[0]
    } else {
        join_spaced(parts.drop_last()) + seq![' '] + parts.last()
    }
}

/// `s` with every run of blanks collapsed to one space and the blanks at
/// both ends removed.
pub open spec fn squeeze(s: Seq<char>) -> Seq<char> {
    join_spaced(tokens(s))
}

/// A text that ends in a non-blank character has a last token, which is not
/// empty.
pub proof fn lemma_tokens_open(s: Seq<char>)
    requires
        s.len() > 0,
        !is_blank(s.last()),
    ensures
        tokens(s).len() > 0,
        tokens(s).last().len() > 0,
        tokens(s).last().last() == s.last(),
    decreases s.len(),
{
    if s.len() >= 2 && !is_blank(s[s.len() - 2]) {
        lemma_tokens_open(s.drop_last());
    }
}

/// The text is not empty and holds no blank.
pub open spec fn solid(t: Seq<char>) -> bool {
    t.len() > 0 && forall|k: int| 0 <= k < t.len() ==> !is_blank(t[k])
}

/// The only blanks of the text are spaces.
pub open spec fn spaced(t: Seq<char>) -> bool {
    forall|k: int| 0 <= k < t.len() ==> t[k] == ' ' || !is_blank(#[trigger] t[k])
}

/// Every token is made of non-blank characters, and of at least one.
pub proof fn lemma_tokens_solid(s: Seq<char>)
    ensures
        forall|i: int| 0 <= i < tokens(s).len() ==> solid(#[trigger] tokens(s)[i]),
    decreases s.len(),
{
    if s.len() > 0 {
        let before = tokens(s.drop_last());
        lemma_tokens_solid(s.drop_last());
        if is_blank(s.last()) {
        } else if s.len() >= 2 && !is_blank(s[s.len() - 2]) {
            lemma_tokens_open(s.drop_last());
            assert forall|i: int| 0 <= i < tokens(s).len() implies solid(
                #[trigger] tokens(s)[i],
            ) by {
                if i < before.len() - 1 {
                    assert(tokens(s)[i] == before[i]);
                } else {
                    assert(solid(before[before.len() - 1]));
                }
            }
        } else {
            assert forall|i: int| 0 <= i < tokens(s).len() implies solid(
                #[trigger] tokens(s)[i],
            ) by {
                if i < before.len() {
                    assert(tokens(s)[i] == before[i]);
                }
            }
        }
    }
}

/// Solid parts joined by spaces hold no blank but those spaces.
pub proof fn lemma_join_spaced(parts: Seq<Seq<char>>)
    requires
        forall|i: int| 0 <= i < parts.len() ==> solid(#[trigger] parts[i]),
    ensures
        spaced(join_spaced(parts)),
    decreases parts.len(),
{
    if parts.len() >= 2 {
        lemma_join_spaced(parts.drop_last());
        assert(solid(parts[parts.len() - 1]));
    } else if parts.len() == 1 {
        assert(solid(parts[0]));
    }
}

/// A text with its whitespace collapsed holds no blank but single spaces.
pub proof fn lemma_squeeze_spaced(s: Seq<char>)
    ensures
        spaced(squeeze(s)),
        free_of(squeeze(s), '\n'),
        free_of(squeeze(s), '\r'),
{
    lemma_tokens_solid(s);
    lemma_join_spaced(tokens(s));
}

/// Joining after one more part adds a space and the part, unless the part
/// is the first.
pub proof fn lemma_join_push(parts: Seq<Seq<char>>, part: Seq<char>)
    ensures
        join_spaced(parts.push(part)) == if parts.len() == 0 {
            part
        } else {
            join_spaced(parts) + seq![' '] + part
        },
{
    assert(parts.push(part).drop_last() =~= parts);
}

/// Collapsing the whitespace of a text makes it no wider.
pub proof fn lemma_squeeze_width(s: Seq<char>)
    ensures
        text_width(squeeze(s)) <= text_width(s),
        s.len() > 0 && is_blank(s.last()) && tokens(s).len() > 0 ==> text_width(squeeze(s)) + 1
            <= text_width(s),
    decreases s.len(),
{
    if s.len() > 0 {
        let init = s.drop_last();
        let c = s.last();
        let before = tokens(init);
        lemma_squeeze_width(init);
        if is_blank(c) {
        } else if s.len() >= 2 && !is_blank(s[s.len() - 2]) {
            lemma_tokens_open(init);
            let grown = before.last().push(c);
            lemma_join_push(before.drop_last(), before.last());
            lemma_join_push(before.drop_last(), grown);
            assert(before.drop_last().push(before.last()) =~= before);
            assert(join_spaced(before.drop_last().push(grown)) =~= join_spaced(before).push(c));
            assert(join_spaced(before).push(c).drop_last() =~= join_spaced(before));
        } else {
            lemma_join_push(before, seq![c]);
            lemma_width_concat(join_spaced(before), seq![' ']);
            lemma_width_concat(join_spaced(before) + seq![' '], seq![c]);
            assert(seq![' '].drop_last() =~= Seq::<char>::empty());
            assert(seq![c].drop_last() =~= Seq::<char>::empty());
            assert(text_width(seq![' ']) == 1) by {
                assert(text_width(seq![' '].drop_last()) == 0);
            }
            assert(text_width(seq![c]) == char_width(c)) by {
                assert(text_width(seq![c].drop_last()) == 0);
            }
            if before.len() > 0 {
                assert(init.len() > 0);
            }
        }
    }
}

/// Splits `s` at runs of ASCII whitespace.
pub fn split_blank(s: &[char]) -> (toks: Vec<Vec<char>>)
    ensures
        texts(toks@) == tokens(s@),
{
    let mut toks: Vec<Vec<char>> = Vec::new();
    let mut cur: Vec<char> = Vec::new();
    let mut i: usize = 0;
    while i < s.len()
        invariant
            i <= s.len(),
            cur@.len() > 0 <==> (i > 0 && !is_blank(s@[i - 1])),
            tokens(s@.take(i as int)) == if cur@.len() > 0 {
                texts(toks@).push(cur@)
            } else {
                texts(toks@)
            },
        decreases s.len() - i,
    {
        let c = s[i];
        proof {
            assert(s@.take(i + 1).drop_last() =~= s@.take(i as int));
            assert(s@.take(i + 1).last() == c);
            if i > 0 {
                assert(s@.take(i + 1)[i - 1] == s@[i - 1]);
            }
        }
        let ghost before = tokens(s@.take(i as int));
        if is_blank_char(c) {
            if cur.len() > 0 {
                proof {
                    assert(texts(toks@.push(cur)) =~= texts(toks@).push(cur@));
                }
                toks.push(cur);
                cur = Vec::new();
            }
            assert(tokens(s@.take(i + 1)) == before);
        } else {
            proof {
                if cur@.len() > 0 {
                    assert(before.drop_last() =~= texts(toks@));
                    assert(before.last() == cur@);
                    assert(tokens(s@.take(i + 1)) == texts(toks@).push(cur@.push(c)));
                } else {
                    assert(seq![c] =~= cur@.push(c));
                    assert(tokens(s@.take(i + 1)) == texts(toks@).push(cur@.push(c)));
                }
            }
            cur.push(c);
        }
        i += 1;
    }
    proof {
        assert(s@.take(i as int) =~= s@);
    }
    if cur.len() > 0 {
        proof {
            assert(texts(toks@.push(cur)) =~= texts(toks@).push(cur@));
        }
        toks.push(cur);
    }
    toks
}

/// Joins `parts` with one space between neighbours.
pub fn join_with_spaces(parts: &Vec<Vec<char>>) -> (out: Vec<char>)
    ensures
        out@ == join_spaced(texts(parts@)),
{
    let mut out: Vec<char> = Vec::new();
    let mut i: usize = 0;
    while i < parts.len()
        invariant
            i <= parts.len(),
            out@ == join_spaced(texts(parts@).take(i as int)),
        decreases parts.len() - i,
    {
        proof {
            assert(texts(parts@).take(i + 1).drop_last() =~= texts(parts@).take(i as int));
        }
        if i > 0 {
            out.push(' ');
        }
        append_chars(&mut out, &parts[i]);
        i += 1;
    }
    proof {
        assert(texts(parts@).take(i as int) =~= texts(parts@));
    }
    out
}

/// Appends the characters of `tail` to `out`.
pub fn append_chars(out: &mut Vec<char>, tail: &[char])
    ensures
        final(out)@ == old(out)@ + tail@,
{
    let mut k: usize = 0;
    while k < tail.len()
        invariant
            k <= tail.len(),
            out@ == old(out)@ + tail@.take(k as int),
        decreases tail.len() - k,
    {
        out.push(tail[k]);
        proof {
            assert(tail@.take(k + 1) =~= tail@.take(k as int).push(tail@[k as int]));
        }
        k += 1;
    }
    proof {
        assert(tail@.take(k as int) =~= tail@);
    }
}

/// The characters of `s` from index `from` up to, not including, `to`.
pub fn copy_range(s: &[char], from: usize, to: usize) -> (v: Vec<char>)
    requires
        from <= to <= s.len(),
    ensures
        v@ == s@.subrange(from as int, to as int),
{
    let mut v: Vec<char> = Vec::new();
    let mut k: usize = from;
    while k < to
        invariant
            from <= k <= to <= s.len(),
            v@ == s@.subrange(from as int, k as int),
        decreases to - k,
    {
        v.push(s[k]);
        proof {
            assert(s@.subrange(from as int, k + 1) =~= s@.subrange(from as int, k as int).push(
                s@[k as int],
            ));
        }
        k += 1;
    }
    v
}

/// Collapses the whitespace of `s`: the tokens of `s` joined by single
/// spaces.
pub fn squeeze_blanks(s: &[char]) -> (out: Vec<char>)
    ensures
        out@ == squeeze(s@),
{
    let toks = split_blank(s);
    join_with_spaces(&toks)
}

} // verus!
