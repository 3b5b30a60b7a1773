//! The pass seen line by line: what it echoes, how its output ends, and
//! what its output splits into.

use vstd::prelude::*;
use vstd::relations::sorted_by;
use crate::block::{
    block_rows, joins_block, lemma_block_rows, lemma_block_rows_drop_last, lemma_split_row,
    lemma_split_row_free,
};
use crate::columns::{
    aligned_lines, concat, lemma_aligned_line_well_ended, lemma_concat_add, lemma_concat_free,
    lemma_concat_pair, lemma_concat_push, padded_row, well_ended,
};
use crate::directive::{has_marker, lemma_scan_plain, scan, Mode, Scan};
use crate::engine::{
    block_lines, block_text, lemma_run_steps, run, sorts, then_text, transition, unterminated,
};
use crate::error::AlignmentError;
use crate::lines::{
    lemma_line_len, lemma_line_len_is, lemma_split_add, lemma_split_one, line_len, split_lines,
    strip_cr, tame,
};
use crate::newline::{
    all_crlf, count_pairs, lemma_count_pairs_add, lemma_count_pairs_push_lf,
    lemma_count_pairs_skip, lemma_no_crlf, lemma_no_lf_no_crlf, lemma_no_lf_no_lf_pairs,
    NewlineStyle,
};
use crate::sort::{lemma_sorted_texts, lex_order};
use crate::text::{
    ends_with, free_of, lemma_squeeze_spaced, lemma_tokens_solid, solid, squeeze, tokens,
};

verus! {

/// Each of `lines` with `newline` after it, in order.
pub open spec fn echo_all(lines: Seq<Seq<char>>, newline: Seq<char>) -> Seq<char>
    decreases lines.len(),
{
    if lines.len() == 0 {
        Seq::empty()
    } else {
        lines[0] + newline + echo_all(lines.drop_first(), newline)
    }
}

/// The pass does nothing with the line but echo it, and leaves alignment
/// switched as it is: the line holds no directive, or it holds a pause
/// directive or a delimiter list, well-formed or not, while alignment is
/// off, or a delimiter list that names no delimiter.
pub open spec fn echo_only(line: Seq<char>, paused: bool) -> bool {
    match scan(line) {
        Scan::Plain => true,
        Scan::Pause => paused,
        Scan::Delimiters { mode, literal } => paused || tokens(literal).len() == 0,
        Scan::Malformed { column, reason } => paused && reason.in_list(),
        _ => false,
    }
}

/// The lines of a block without their end-of-row markers.
pub open spec fn bodies(block: Seq<Seq<char>>) -> Seq<Seq<char>> {
    Seq::new(block.len(), |i: int| block[i].drop_last())
}

/// The lines that the pass puts out for the lines from index `at` on,
/// where it puts out a text: the lines that it echoes, and the lines of the
/// blocks without their end-of-row markers.
pub open spec fn out_lines(lines: Seq<Seq<char>>, at: int, paused: bool) -> Seq<Seq<char>>
    decreases lines.len() - at,
    via out_lines_decreases
{
    if at < 0 || at >= lines.len() {
        Seq::empty()
    } else {
        match scan(lines[at]) {
            Scan::Malformed { column, reason } => {
                if paused && reason.in_list() {
                    seq![lines[at]] + out_lines(lines, at + 1, paused)
                } else {
                    Seq::empty()
                }
            },
            Scan::Cancel => Seq::empty(),
            Scan::Plain => seq![lines[at]] + out_lines(lines, at + 1, paused),
            Scan::Pause => seq![lines[at]] + out_lines(lines, at + 1, true),
            Scan::Resume => seq![lines[at]] + out_lines(lines, at + 1, false),
            Scan::Delimiters { mode, literal } => {
                if paused || tokens(literal).len() == 0 {
                    seq![lines[at]] + out_lines(lines, at + 1, paused)
                } else {
                    let rows = block_rows(lines, at + 1, tokens(literal));
                    seq![lines[at]] + bodies(block_lines(rows, mode)) + out_lines(
                        lines,
                        at + 1 + rows.len(),
                        paused,
                    )
                }
            },
        }
    }
}

#[via_fn]
proof fn out_lines_decreases(lines: Seq<Seq<char>>, at: int, paused: bool) {
    if 0 <= at < lines.len() {
        if let Scan::Delimiters { mode, literal } = scan(lines[at]) {
            lemma_block_rows(lines, at + 1, tokens(literal));
        }
    }
}

/// The line holds neither a line feed nor a carriage return.
pub open spec fn clean(line: Seq<char>) -> bool {
    free_of(line, '\n') && free_of(line, '\r')
}

/// Whether alignment is off when the pass reaches line `at`: the last
/// pause or resume directive before the line decides, and at the start
/// alignment is on.
pub open spec fn paused_at(lines: Seq<Seq<char>>, at: int) -> bool
    decreases at,
{
    if at <= 0 {
        false
    } else {
        match scan(lines[at - 1]) {
            Scan::Pause => true,
            Scan::Resume => false,
            _ => paused_at(lines, at - 1),
        }
    }
}

/// The pass ends at line `k` with a fault, if it reaches the line: the
/// line holds a malformed directive, and the fault is not passed over.
pub open spec fn aborts_at(lines: Seq<Seq<char>>, k: int) -> bool {
    scan(lines[k]) matches Scan::Malformed { column, reason } && !(paused_at(lines, k)
        && reason.in_list())
}

/// A run of lines that are only echoed comes out as it is, each line with
/// the terminator after it, and the pass goes on behind the run in the state
/// in which it reached it.
pub proof fn lemma_run_echo(
    lines: Seq<Seq<char>>,
    from: int,
    to: int,
    paused: bool,
    newline: Seq<char>,
)
    requires
        0 <= from <= to <= lines.len(),
        forall|k: int| from <= k < to ==> echo_only(#[trigger] lines[k], paused),
    ensures
        run(lines, from, paused, newline) == then_text(
            echo_all(lines.subrange(from, to), newline),
            run(lines, to, paused, newline),
        ),
    decreases to - from,
{
    let rest = run(lines, to, paused, newline);
    if from == to {
        assert(lines.subrange(from, to) =~= Seq::<Seq<char>>::empty());
        if let Ok(t) = rest {
            assert(Seq::<char>::empty() + t =~= t);
        }
    } else {
        lemma_run_echo(lines, from + 1, to, paused, newline);
        assert(echo_only(lines[from], paused));
        assert(lines.subrange(from, to).drop_first() =~= lines.subrange(from + 1, to));
        assert(lines.subrange(from, to)[0] == lines[from]);
        let tail = echo_all(lines.subrange(from + 1, to), newline);
        if let Ok(t) = rest {
            assert((lines[from] + newline) + (tail + t) =~= (lines[from] + newline + tail) + t);
        }
    }
}

/// Lines without the marker leave alignment switched as it is.
pub proof fn lemma_paused_over_plain(lines: Seq<Seq<char>>, from: int, to: int)
    requires
        0 <= from <= to <= lines.len(),
        forall|k: int| from <= k < to ==> !has_marker(#[trigger] lines[k]),
    ensures
        paused_at(lines, to) == paused_at(lines, from),
    decreases to - from,
{
    if from < to {
        lemma_paused_over_plain(lines, from, to - 1);
        lemma_scan_plain(lines[to - 1]);
    }
}

/// Cancellation: where a line holds a cancel directive and the pass does
/// not end with a fault before it, the pass ends in a cancellation,
/// whatever else the lines hold.
pub proof fn lemma_cancel_wins(lines: Seq<Seq<char>>, at: int, cancel: int, newline: Seq<char>)
    requires
        0 <= at <= cancel < lines.len(),
        scan(lines[cancel]) is Cancel,
        forall|k: int| at <= k < cancel ==> !aborts_at(lines, k),
    ensures
        run(lines, at, paused_at(lines, at), newline) == Err::<Seq<char>, AlignmentError>(
            AlignmentError::FileCanceled,
        ),
    decreases cancel - at,
{
    let paused = paused_at(lines, at);
    if at < cancel {
        assert(!aborts_at(lines, at));
    }
    match scan(lines[at]) {
        Scan::Cancel => {},
        Scan::Delimiters { mode, literal } => {
            if paused || tokens(literal).len() == 0 {
                lemma_cancel_wins(lines, at + 1, cancel, newline);
            } else {
                let rows = block_rows(lines, at + 1, tokens(literal));
                lemma_block_rows(lines, at + 1, tokens(literal));
                lemma_scan_plain(lines[cancel]);
                if cancel < at + 1 + rows.len() {
                    assert(joins_block(lines[(at + 1) + (cancel - at - 1)], tokens(literal)));
                }
                assert forall|k: int| at + 1 <= k < at + 1 + rows.len() implies !has_marker(
                    #[trigger] lines[k],
                ) by {
                    assert(joins_block(lines[(at + 1) + (k - at - 1)], tokens(literal)));
                }
                lemma_paused_over_plain(lines, at + 1, at + 1 + rows.len());
                lemma_cancel_wins(lines, at + 1 + rows.len(), cancel, newline);
            }
        },
        _ => {
            lemma_cancel_wins(lines, at + 1, cancel, newline);
        },
    }
}

/// Where no carriage return stands directly before a line feed, the lines
/// of a text, each with a line feed after it, are the text again, with a
/// line feed added where the text does not end in one.
pub proof fn lemma_rejoin(s: Seq<char>)
    requires
        count_pairs(s, NewlineStyle::CRLF) == 0,
    ensures
        echo_all(split_lines(s), seq!['\n']) == if s.len() == 0 || s.last() == '\n' {
            s
        } else {
            s.push('\n')
        },
    decreases s.len(),
{
    let n = line_len(s);
    let nl = seq!['\n'];
    lemma_line_len(s);
    if s.len() == 0 {
    } else if n >= s.len() {
        assert(split_lines(s).drop_first() =~= Seq::<Seq<char>>::empty());
        assert(echo_all(split_lines(s).drop_first(), nl) =~= Seq::<char>::empty());
        assert(s + nl + Seq::<char>::empty() =~= s.push('\n'));
        if s.last() == '\n' {
            assert(s[s.len() - 1] != '\n');
        }
    } else {
        let rest = s.skip(n + 1);
        if n > 0 {
            lemma_no_crlf(s, n - 1);
        }
        assert(strip_cr(s.take(n)) == s.take(n));
        lemma_count_pairs_skip(s, n + 1, NewlineStyle::CRLF);
        lemma_rejoin(rest);
        assert(split_lines(s).drop_first() =~= split_lines(rest));
        assert(split_lines(s)[0] == s.take(n));
        if rest.len() == 0 {
            assert(s.take(n) + nl + Seq::<char>::empty() =~= s);
        } else if rest.last() == '\n' {
            assert(s.take(n) + nl + rest =~= s);
        } else {
            assert(s.take(n) + nl + rest.push('\n') =~= s.push('\n'));
        }
    }
}

/// The lines of a text, each with a line feed after it, are as long as the
/// text, less one character for each carriage return that stands directly
/// before a line feed, and one more where the text does not end in a line
/// feed.
pub proof fn lemma_rejoin_len(s: Seq<char>)
    ensures
        echo_all(split_lines(s), seq!['\n']).len() + count_pairs(s, NewlineStyle::CRLF) == s.len()
            + if s.len() > 0 && s.last() != '\n' {
            1nat
        } else {
            0nat
        },
    decreases s.len(),
{
    let n = line_len(s);
    let nl = seq!['\n'];
    lemma_line_len(s);
    if s.len() == 0 {
    } else if n >= s.len() {
        lemma_no_lf_no_crlf(s);
        lemma_echo_one(s, nl);
        assert(split_lines(s) =~= seq![s]);
        assert(s[s.len() - 1] != '\n');
    } else {
        let head = s.take(n + 1);
        let rest = s.skip(n + 1);
        let first = strip_cr(s.take(n));
        lemma_rejoin_len(rest);
        assert(split_lines(s).drop_first() =~= split_lines(rest));
        assert(split_lines(s)[0] == first);
        assert(head.drop_last() =~= s.take(n));
        assert forall|k: int| 0 <= k < s.take(n).len() implies s.take(n)[k] != '\n' by {}
        lemma_no_lf_no_crlf(s.take(n));
        assert(head.last() == '\n');
        if n > 0 {
            assert(head[head.len() - 2] == s[n - 1]);
            assert(s.take(n).last() == s[n - 1]);
        }
        if rest.len() > 0 {
            assert(s =~= head + rest);
            lemma_count_pairs_add(head, rest, NewlineStyle::CRLF);
            assert(rest.last() == s.last());
        } else {
            assert(s =~= head);
        }
    }
}

/// Every line of a block is well ended: it ends in the end-of-row marker,
/// and what stands before the marker is not empty and holds no line feed.
pub proof fn lemma_block_lines_well_ended(
    lines: Seq<Seq<char>>,
    start: int,
    delims: Seq<Seq<char>>,
    r: int,
)
    requires
        0 <= start <= lines.len(),
        delims.len() > 0,
        forall|k: int| 0 <= k < delims.len() ==> solid(#[trigger] delims[k]),
        0 <= r < block_rows(lines, start, delims).len(),
    ensures
        well_ended(aligned_lines(block_rows(lines, start, delims))[r]),
{
    let rows = block_rows(lines, start, delims);
    let line = squeeze(lines[start + r]);
    lemma_block_rows(lines, start, delims);
    assert(joins_block(lines[start + r], delims));
    lemma_squeeze_spaced(lines[start + r]);
    lemma_split_row(line, delims);
    lemma_split_row_free(line, delims, '\n');
    reveal_strlit("\n");
    assert("\n"@ =~= seq!['\n']);
    assert(rows[r][2 * 0int + 1] == delims[0]);
    assert(solid(delims[0]));
    lemma_aligned_line_well_ended(rows, r, 1);
}

/// The lines that replace a block are its aligned lines: as many, and the
/// same ones.
pub proof fn lemma_block_lines_members(rows: Seq<Seq<Seq<char>>>, mode: Mode)
    ensures
        block_lines(rows, mode).len() == rows.len(),
        forall|i: int|
            0 <= i < rows.len() ==> aligned_lines(rows).contains(
                #[trigger] block_lines(rows, mode)[i],
            ),
        forall|r: int|
            0 <= r < rows.len() ==> block_lines(rows, mode).contains(
                #[trigger] aligned_lines(rows)[r],
            ),
        sorts(mode) ==> sorted_by(block_lines(rows, mode), lex_order()),
{
    let plain = aligned_lines(rows);
    let out = block_lines(rows, mode);
    if sorts(mode) {
        lemma_sorted_texts(plain);
        plain.to_multiset_ensures();
        out.to_multiset_ensures();
        assert forall|i: int| 0 <= i < rows.len() implies plain.contains(#[trigger] out[i]) by {
            assert(out.contains(out[i]));
            assert(out.to_multiset().count(out[i]) > 0);
        }
        assert forall|r: int| 0 <= r < rows.len() implies out.contains(#[trigger] plain[r]) by {
            assert(plain.contains(plain[r]));
            assert(plain.to_multiset().count(plain[r]) > 0);
        }
    } else {
        assert forall|i: int| 0 <= i < rows.len() implies plain.contains(#[trigger] out[i]) by {
            assert(plain[i] == out[i]);
        }
    }
}

/// The lines that replace a block are all well ended.
pub proof fn lemma_block_lines_all_well_ended(
    lines: Seq<Seq<char>>,
    start: int,
    delims: Seq<Seq<char>>,
    mode: Mode,
)
    requires
        0 <= start <= lines.len(),
        delims.len() > 0,
        forall|k: int| 0 <= k < delims.len() ==> solid(#[trigger] delims[k]),
    ensures
        forall|i: int|
            0 <= i < block_rows(lines, start, delims).len() ==> well_ended(
                #[trigger] block_lines(block_rows(lines, start, delims), mode)[i],
            ),
{
    let rows = block_rows(lines, start, delims);
    let plain = aligned_lines(rows);
    let out = block_lines(rows, mode);
    lemma_block_lines_members(rows, mode);
    assert forall|i: int| 0 <= i < rows.len() implies well_ended(#[trigger] out[i]) by {
        assert(plain.contains(out[i]));
        let r = choose|r: int| 0 <= r < plain.len() && plain[r] == out[i];
        lemma_block_lines_well_ended(lines, start, delims, r);
    }
}

/// Echoing two runs of lines is echoing the first, then the second.
pub proof fn lemma_echo_add(a: Seq<Seq<char>>, b: Seq<Seq<char>>, newline: Seq<char>)
    ensures
        echo_all(a + b, newline) == echo_all(a, newline) + echo_all(b, newline),
    decreases a.len(),
{
    if a.len() == 0 {
        assert(a + b =~= b);
        assert(echo_all(a, newline) + echo_all(b, newline) =~= echo_all(b, newline));
    } else {
        assert((a + b).drop_first() =~= a.drop_first() + b);
        lemma_echo_add(a.drop_first(), b, newline);
        assert(a[0] + newline + (echo_all(a.drop_first(), newline) + echo_all(b, newline)) =~= (
        a[0] + newline + echo_all(a.drop_first(), newline)) + echo_all(b, newline));
    }
}

/// Echoing one line.
pub proof fn lemma_echo_one(line: Seq<char>, newline: Seq<char>)
    ensures
        echo_all(seq![line], newline) == line + newline,
{
    assert(seq![line].drop_first() =~= Seq::<Seq<char>>::empty());
    assert(echo_all(seq![line].drop_first(), newline) =~= Seq::<char>::empty());
    assert(line + newline + Seq::<char>::empty() =~= line + newline);
}

/// Lines that end in a line feed, echoed without it and with line feed as
/// the terminator, are the lines one after the other.
pub proof fn lemma_echo_bodies(block: Seq<Seq<char>>)
    requires
        forall|i: int| 0 <= i < block.len() ==> well_ended(#[trigger] block[i]),
    ensures
        echo_all(bodies(block), seq!['\n']) == concat(block),
    decreases block.len(),
{
    if block.len() == 0 {
        assert(bodies(block) =~= Seq::<Seq<char>>::empty());
    } else {
        let rest = block.drop_first();
        assert(bodies(block).drop_first() =~= bodies(rest));
        assert forall|i: int| 0 <= i < rest.len() implies well_ended(#[trigger] rest[i]) by {
            assert(rest[i] == block[i + 1]);
        }
        lemma_echo_bodies(rest);
        assert(block =~= seq![block[0]] + rest);
        lemma_concat_add(seq![block[0]], rest);
        lemma_concat_pair(block[0], block[0]);
        assert(well_ended(block[0]));
        assert(block[0].drop_last() + seq!['\n'] =~= block[0]);
    }
}

/// Echoing lines that lack a character, with a terminator that lacks it,
/// gives a text that lacks it.
pub proof fn lemma_echo_free(out: Seq<Seq<char>>, newline: Seq<char>, c: char)
    requires
        free_of(newline, c),
        forall|i: int| 0 <= i < out.len() ==> free_of(#[trigger] out[i], c),
    ensures
        free_of(echo_all(out, newline), c),
    decreases out.len(),
{
    if out.len() > 0 {
        assert(free_of(out[0], c));
        assert forall|i: int| 0 <= i < out.drop_first().len() implies free_of(
            #[trigger] out.drop_first()[i],
            c,
        ) by {
            assert(out.drop_first()[i] == out[i + 1]);
        }
        lemma_echo_free(out.drop_first(), newline, c);
    }
}

/// Where the pass puts out a text for line feed as the terminator, the
/// text is the lines that it puts out, echoed.
pub proof fn lemma_run_is_echo(lines: Seq<Seq<char>>, at: int, paused: bool)
    requires
        0 <= at <= lines.len(),
        run(lines, at, paused, seq!['\n']) is Ok,
    ensures
        run(lines, at, paused, seq!['\n']) == Ok::<Seq<char>, AlignmentError>(
            echo_all(out_lines(lines, at, paused), seq!['\n']),
        ),
    decreases lines.len() - at,
{
    let nl = seq!['\n'];
    if at < lines.len() {
        let line = lines[at];
        lemma_echo_one(line, nl);
        match scan(line) {
            Scan::Malformed { column, reason } => {
                if paused && reason.in_list() {
                    lemma_run_is_echo(lines, at + 1, paused);
                    lemma_echo_add(seq![line], out_lines(lines, at + 1, paused), nl);
                }
            },
            Scan::Cancel => {},
            Scan::Plain => {
                lemma_run_is_echo(lines, at + 1, paused);
                lemma_echo_add(seq![line], out_lines(lines, at + 1, paused), nl);
            },
            Scan::Pause => {
                lemma_run_is_echo(lines, at + 1, true);
                lemma_echo_add(seq![line], out_lines(lines, at + 1, true), nl);
            },
            Scan::Resume => {
                lemma_run_is_echo(lines, at + 1, false);
                lemma_echo_add(seq![line], out_lines(lines, at + 1, false), nl);
            },
            Scan::Delimiters { mode, literal } => {
                if paused || tokens(literal).len() == 0 {
                    lemma_run_is_echo(lines, at + 1, paused);
                    lemma_echo_add(seq![line], out_lines(lines, at + 1, paused), nl);
                } else {
                    let delims = tokens(literal);
                    let rows = block_rows(lines, at + 1, delims);
                    let block = block_lines(rows, mode);
                    let rest = out_lines(lines, at + 1 + rows.len(), paused);
                    lemma_block_rows(lines, at + 1, delims);
                    lemma_tokens_solid(literal);
                    lemma_block_lines_members(rows, mode);
                    lemma_block_lines_all_well_ended(lines, at + 1, delims, mode);
                    lemma_echo_bodies(block);
                    lemma_run_is_echo(lines, at + 1 + rows.len(), paused);
                    lemma_echo_add(seq![line] + bodies(block), rest, nl);
                    lemma_echo_add(seq![line], bodies(block), nl);
                    assert((line + nl + block_text(rows, mode)) + echo_all(rest, nl) =~= (line
                        + nl + concat(block)) + echo_all(rest, nl));
                }
            },
        }
    }
}

/// A line of a block that has been aligned is clean and not empty, its
/// end-of-row marker aside.
pub proof fn lemma_aligned_body_clean(
    lines: Seq<Seq<char>>,
    start: int,
    delims: Seq<Seq<char>>,
    r: int,
)
    requires
        0 <= start <= lines.len(),
        delims.len() > 0,
        forall|k: int| 0 <= k < delims.len() ==> solid(#[trigger] delims[k]),
        0 <= r < block_rows(lines, start, delims).len(),
    ensures
        clean(aligned_lines(block_rows(lines, start, delims))[r].drop_last()),
        aligned_lines(block_rows(lines, start, delims))[r].drop_last().len() > 0,
{
    let rows = block_rows(lines, start, delims);
    let row = rows[r];
    let padded = padded_row(rows, r);
    let text = squeeze(lines[start + r]);
    lemma_block_rows(lines, start, delims);
    assert(joins_block(lines[start + r], delims));
    lemma_split_row(text, delims);
    lemma_squeeze_spaced(lines[start + r]);
    lemma_split_row_free(text, delims, '\n');
    lemma_split_row_free(text, delims, '\r');
    lemma_block_lines_well_ended(lines, start, delims, r);
    assert(padded =~= padded.drop_last().push(padded.last()));
    lemma_concat_push(padded.drop_last(), padded.last());
    assert(padded.last() == row.last());
    reveal_strlit("\n");
    assert(aligned_lines(rows)[r].drop_last() =~= concat(padded.drop_last()));
    assert forall|j: int| 0 <= j < padded.drop_last().len() implies free_of(
        #[trigger] padded.drop_last()[j],
        '\n',
    ) && free_of(padded.drop_last()[j], '\r') by {
        assert(free_of(row[j], '\n'));
        assert(free_of(row[j], '\r'));
    }
    lemma_concat_free(padded.drop_last(), '\n');
    lemma_concat_free(padded.drop_last(), '\r');
}

/// Where the pass puts out a text, it puts out one line for each line that
/// it was given, and the first of them is the line that it began with.
pub proof fn lemma_out_lines_shape(
    lines: Seq<Seq<char>>,
    at: int,
    paused: bool,
    newline: Seq<char>,
)
    requires
        0 <= at <= lines.len(),
        run(lines, at, paused, newline) is Ok,
    ensures
        out_lines(lines, at, paused).len() == lines.len() - at,
        at < lines.len() ==> out_lines(lines, at, paused)[0] == lines[at],
    decreases lines.len() - at,
{
    if at < lines.len() {
        match scan(lines[at]) {
            Scan::Malformed { column, reason } => {
                if paused && reason.in_list() {
                    lemma_out_lines_shape(lines, at + 1, paused, newline);
                }
            },
            Scan::Cancel => {},
            Scan::Plain => {
                lemma_out_lines_shape(lines, at + 1, paused, newline);
            },
            Scan::Pause => {
                lemma_out_lines_shape(lines, at + 1, true, newline);
            },
            Scan::Resume => {
                lemma_out_lines_shape(lines, at + 1, false, newline);
            },
            Scan::Delimiters { mode, literal } => {
                if paused || tokens(literal).len() == 0 {
                    lemma_out_lines_shape(lines, at + 1, paused, newline);
                } else {
                    let rows = block_rows(lines, at + 1, tokens(literal));
                    lemma_block_rows(lines, at + 1, tokens(literal));
                    lemma_block_lines_members(rows, mode);
                    lemma_out_lines_shape(lines, at + 1 + rows.len(), paused, newline);
                }
            },
        }
    }
}

/// Each line that the pass puts out is the line that it was given at that
/// place, or a line of an aligned block, which is clean and not empty.
pub proof fn lemma_out_lines_kinds(
    lines: Seq<Seq<char>>,
    at: int,
    paused: bool,
    newline: Seq<char>,
)
    requires
        0 <= at <= lines.len(),
        run(lines, at, paused, newline) is Ok,
    ensures
        out_lines(lines, at, paused).len() == lines.len() - at,
        forall|i: int|
            0 <= i < lines.len() - at ==> #[trigger] out_lines(lines, at, paused)[i] == lines[at
                + i] || (clean(out_lines(lines, at, paused)[i]) && out_lines(
                lines,
                at,
                paused,
            )[i].len() > 0),
    decreases lines.len() - at,
{
    lemma_out_lines_shape(lines, at, paused, newline);
    if at < lines.len() {
        let line = lines[at];
        let out = out_lines(lines, at, paused);
        match scan(line) {
            Scan::Malformed { column, reason } => {
                if paused && reason.in_list() {
                    lemma_out_lines_kinds(lines, at + 1, paused, newline);
                    lemma_kinds_step(lines, at, seq![line], out_lines(lines, at + 1, paused));
                }
            },
            Scan::Cancel => {},
            Scan::Plain => {
                lemma_out_lines_kinds(lines, at + 1, paused, newline);
                lemma_kinds_step(lines, at, seq![line], out_lines(lines, at + 1, paused));
            },
            Scan::Pause => {
                lemma_out_lines_kinds(lines, at + 1, true, newline);
                lemma_kinds_step(lines, at, seq![line], out_lines(lines, at + 1, true));
            },
            Scan::Resume => {
                lemma_out_lines_kinds(lines, at + 1, false, newline);
                lemma_kinds_step(lines, at, seq![line], out_lines(lines, at + 1, false));
            },
            Scan::Delimiters { mode, literal } => {
                if paused || tokens(literal).len() == 0 {
                    lemma_out_lines_kinds(lines, at + 1, paused, newline);
                    lemma_kinds_step(lines, at, seq![line], out_lines(lines, at + 1, paused));
                } else {
                    let delims = tokens(literal);
                    let rows = block_rows(lines, at + 1, delims);
                    let block = block_lines(rows, mode);
                    lemma_block_rows(lines, at + 1, delims);
                    lemma_tokens_solid(literal);
                    lemma_block_lines_members(rows, mode);
                    lemma_out_lines_kinds(lines, at + 1 + rows.len(), paused, newline);
                    let head = seq![line] + bodies(block);
                    assert forall|i: int| 0 < i < head.len() implies clean(#[trigger] head[i])
                        && head[i].len() > 0 by {
                        assert(aligned_lines(rows).contains(block[i - 1]));
                        let r = choose|r: int|
                            0 <= r < rows.len() && aligned_lines(rows)[r] == block[i - 1];
                        lemma_aligned_body_clean(lines, at + 1, delims, r);
                    }
                    lemma_kinds_step(
                        lines,
                        at,
                        head,
                        out_lines(lines, at + 1 + rows.len(), paused),
                    );
                }
            },
        }
    }
}

/// The step of `lemma_out_lines_kinds`: `head` begins with line `at` and
/// goes on with lines of a block, and `rest` is what the pass puts out
/// from where it goes on.
proof fn lemma_kinds_step(
    lines: Seq<Seq<char>>,
    at: int,
    head: Seq<Seq<char>>,
    rest: Seq<Seq<char>>,
)
    requires
        0 <= at < lines.len(),
        head.len() > 0,
        head[0] == lines[at],
        forall|i: int| 0 < i < head.len() ==> clean(#[trigger] head[i]) && head[i].len() > 0,
        rest.len() == lines.len() - at - head.len(),
        forall|i: int|
            0 <= i < rest.len() ==> #[trigger] rest[i] == lines[at + head.len() + i] || (clean(
                rest[i],
            ) && rest[i].len() > 0),
    ensures
        forall|i: int|
            0 <= i < lines.len() - at ==> #[trigger] (head + rest)[i] == lines[at + i] || (clean(
                (head + rest)[i],
            ) && (head + rest)[i].len() > 0),
{
    let all = head + rest;
    assert forall|i: int| 0 <= i < lines.len() - at implies #[trigger] all[i] == lines[at + i]
        || (clean(all[i]) && all[i].len() > 0) by {
        if i == 0 {
        } else if i < head.len() {
            assert(clean(head[i]));
        } else {
            assert(rest[i - head.len()] == all[i]);
        }
    }
}

/// The text of lines echoed with line feeds, with the last line feed or
/// without it.
pub open spec fn echo_text(out: Seq<Seq<char>>, whole: bool) -> Seq<char> {
    if whole {
        echo_all(out, seq!['\n'])
    } else {
        echo_all(out, seq!['\n']).drop_last()
    }
}

/// The lines can be echoed with line feeds and split again: none holds a
/// line feed, and none that a line feed then ends ends in a carriage
/// return. Without the last line feed, the last line must not be empty.
pub open spec fn splits_back(out: Seq<Seq<char>>, whole: bool) -> bool {
    &&& out.len() > 0
    &&& forall|i: int| 0 <= i < out.len() ==> free_of(#[trigger] out[i], '\n')
    &&& forall|i: int| 0 <= i < out.len() - 1 ==> tame(#[trigger] out[i])
    &&& whole ==> tame(out.last())
    &&& !whole ==> out.last().len() > 0
}

/// What is left of lines that split back after the first of them splits
/// back.
proof fn lemma_splits_back_rest(out: Seq<Seq<char>>, whole: bool)
    requires
        splits_back(out, whole),
        out.len() >= 2,
    ensures
        splits_back(out.drop_first(), whole),
        tame(out[0]),
{
    let rest = out.drop_first();
    assert forall|i: int| 0 <= i < rest.len() implies free_of(#[trigger] rest[i], '\n') by {
        assert(rest[i] == out[i + 1]);
    }
    assert forall|i: int| 0 <= i < rest.len() - 1 implies tame(#[trigger] rest[i]) by {
        assert(rest[i] == out[i + 1]);
    }
    assert(rest.last() == out.last());
}

/// Echoing lines, of which there is at least one, gives a text that ends
/// with the terminator.
pub proof fn lemma_echo_nonempty(out: Seq<Seq<char>>, newline: Seq<char>)
    requires
        out.len() > 0,
        newline.len() > 0,
    ensures
        echo_all(out, newline).len() >= newline.len(),
        ends_with(echo_all(out, newline), newline),
    decreases out.len(),
{
    let text = echo_all(out, newline);
    if out.len() == 1 {
        lemma_echo_one(out[0], newline);
        assert(out =~= seq![out[0]]);
        assert(text.subrange(text.len() - newline.len(), text.len() as int) =~= newline);
    } else {
        let rest_text = echo_all(out.drop_first(), newline);
        lemma_echo_nonempty(out.drop_first(), newline);
        assert(text.subrange(text.len() - newline.len(), text.len() as int)
            =~= rest_text.subrange(
            rest_text.len() - newline.len(),
            rest_text.len() as int,
        ));
    }
}

/// Where every line feed stands after a carriage return, the lines of
/// the text, each with a carriage return and a line feed after it, are the
/// text again, with that terminator added where the text does not end in a
/// line feed.
pub proof fn lemma_rejoin_crlf(s: Seq<char>)
    requires
        all_crlf(s),
    ensures
        echo_all(split_lines(s), seq!['\r', '\n']) == if s.len() == 0 || s.last() == '\n' {
            s
        } else {
            s + seq!['\r', '\n']
        },
    decreases s.len(),
{
    let n = line_len(s);
    let nl = seq!['\r', '\n'];
    lemma_line_len(s);
    if s.len() == 0 {
    } else if n >= s.len() {
        lemma_echo_one(s, nl);
        assert(split_lines(s) =~= seq![s]);
        assert(s[s.len() - 1] != '\n');
    } else {
        let rest = s.skip(n + 1);
        assert(s[n] == '\n');
        assert(n > 0 && s[n - 1] == '\r');
        assert(s.take(n).last() == '\r');
        assert(strip_cr(s.take(n)) =~= s.take(n - 1));
        assert forall|i: int| 0 <= i < rest.len() && #[trigger] rest[i] == '\n' implies i > 0
            && rest[i - 1] == '\r' by {
            assert(rest[i] == s[n + 1 + i]);
            assert(s[n + 1 + i] == '\n');
            if i > 0 {
                assert(rest[i - 1] == s[n + i]);
            }
        }
        lemma_rejoin_crlf(rest);
        assert(split_lines(s).drop_first() =~= split_lines(rest));
        assert(split_lines(s)[0] == s.take(n - 1));
        if rest.len() == 0 {
            assert(s.take(n - 1) + nl + rest =~= s);
        } else if rest.last() == '\n' {
            assert(rest.last() == s.last());
            assert(s.take(n - 1) + nl + rest =~= s);
        } else {
            assert(rest.last() == s.last());
            assert(s.take(n - 1) + nl + (rest + nl) =~= s + nl);
        }
    }
}

/// In lines without line feeds, echoed with a carriage return and a line
/// feed after each, every line feed stands after a carriage return.
pub proof fn lemma_echo_paired(out: Seq<Seq<char>>)
    requires
        forall|i: int| 0 <= i < out.len() ==> free_of(#[trigger] out[i], '\n'),
    ensures
        all_crlf(echo_all(out, seq!['\r', '\n'])),
    decreases out.len(),
{
    let nl = seq!['\r', '\n'];
    if out.len() > 0 {
        let first = out[0];
        let rest = out.drop_first();
        assert(free_of(out[0], '\n'));
        assert forall|i: int| 0 <= i < rest.len() implies free_of(#[trigger] rest[i], '\n') by {
            assert(rest[i] == out[i + 1]);
        }
        lemma_echo_paired(rest);
        let tail = echo_all(rest, nl);
        let text = echo_all(out, nl);
        assert(text == first + nl + tail);
        assert forall|i: int| 0 <= i < text.len() && #[trigger] text[i] == '\n' implies i > 0
            && text[i - 1] == '\r' by {
            if i < first.len() {
                assert(text[i] == first[i]);
            } else if i >= first.len() + 2 {
                let k = i - first.len() - 2;
                assert(text[i] == tail[k]);
                assert(tail[k] == '\n');
                assert(k > 0 && tail[k - 1] == '\r');
                assert(text[i - 1] == tail[k - 1]);
            }
        }
    }
}

/// The text ends in the end-of-row marker of a block: a line feed, with a
/// character before it that is neither a line feed nor a carriage return.
pub open spec fn row_ended(t: Seq<char>) -> bool {
    t.len() >= 2 && t[t.len() - 1] == '\n' && t[t.len() - 2] != '\n' && t[t.len() - 2] != '\r'
}

/// The output for the lines from index `at` on ends in a row of a block:
/// the last line is a line of a block that the pass aligns.
pub open spec fn row_last(lines: Seq<Seq<char>>, at: int, paused: bool) -> bool
    decreases lines.len() - at,
    via row_last_decreases
{
    if at < 0 || at >= lines.len() {
        false
    } else {
        match scan(lines[at]) {
            Scan::Pause => row_last(lines, at + 1, true),
            Scan::Resume => row_last(lines, at + 1, false),
            Scan::Delimiters { mode, literal } => {
                if paused || tokens(literal).len() == 0 {
                    row_last(lines, at + 1, paused)
                } else {
                    let rows = block_rows(lines, at + 1, tokens(literal));
                    if at + 1 + rows.len() >= lines.len() {
                        rows.len() > 0
                    } else {
                        row_last(lines, at + 1 + rows.len(), paused)
                    }
                }
            },
            _ => row_last(lines, at + 1, paused),
        }
    }
}

#[via_fn]
proof fn row_last_decreases(lines: Seq<Seq<char>>, at: int, paused: bool) {
    if 0 <= at < lines.len() {
        if let Scan::Delimiters { mode, literal } = scan(lines[at]) {
            lemma_block_rows(lines, at + 1, tokens(literal));
        }
    }
}

/// The text of a block that has rows ends as a row ends.
pub proof fn lemma_block_text_row_ended(
    lines: Seq<Seq<char>>,
    start: int,
    delims: Seq<Seq<char>>,
    mode: Mode,
)
    requires
        0 <= start <= lines.len(),
        delims.len() > 0,
        forall|k: int| 0 <= k < delims.len() ==> solid(#[trigger] delims[k]),
        block_rows(lines, start, delims).len() > 0,
    ensures
        row_ended(block_text(block_rows(lines, start, delims), mode)),
{
    let rows = block_rows(lines, start, delims);
    let plain = aligned_lines(rows);
    let block = block_lines(rows, mode);
    lemma_block_lines_members(rows, mode);
    assert(block[block.len() - 1] == block.last());
    assert(plain.contains(block[block.len() - 1]));
    let r = choose|r: int| 0 <= r < plain.len() && plain[r] == block.last();
    lemma_block_lines_well_ended(lines, start, delims, r);
    lemma_aligned_body_clean(lines, start, delims, r);
    let line = plain[r];
    assert(line.drop_last()[line.len() - 2] == line[line.len() - 2]);
    assert(row_ended(line));
}

/// How the output of the pass ends: in the last line with the terminator
/// after it, or, where the last line is a row of a block, as a row ends.
pub proof fn lemma_run_last(lines: Seq<Seq<char>>, at: int, paused: bool, newline: Seq<char>)
    requires
        0 <= at < lines.len(),
        run(lines, at, paused, newline) is Ok,
    ensures
        row_last(lines, at, paused) ==> row_ended(run(lines, at, paused, newline)->Ok_0),
        !row_last(lines, at, paused) ==> ends_with(
            run(lines, at, paused, newline)->Ok_0,
            lines.last() + newline,
        ),
    decreases lines.len() - at,
{
    let echo = lines[at] + newline;
    if at + 1 == lines.len() {
        assert(!row_last(lines, at + 1, true));
        assert(!row_last(lines, at + 1, false));
    }
    match scan(lines[at]) {
        Scan::Cancel => {},
        Scan::Malformed { column, reason } => {
            if paused && reason.in_list() {
                lemma_last_step(lines, at, at + 1, paused, paused, echo, newline);
            }
        },
        Scan::Plain => {
            lemma_last_step(lines, at, at + 1, paused, paused, echo, newline);
        },
        Scan::Pause => {
            lemma_last_step(lines, at, at + 1, paused, true, echo, newline);
        },
        Scan::Resume => {
            lemma_last_step(lines, at, at + 1, paused, false, echo, newline);
        },
        Scan::Delimiters { mode, literal } => {
            if paused || tokens(literal).len() == 0 {
                lemma_last_step(lines, at, at + 1, paused, paused, echo, newline);
            } else {
                let rows = block_rows(lines, at + 1, tokens(literal));
                lemma_block_rows(lines, at + 1, tokens(literal));
                lemma_tokens_solid(literal);
                let head = echo + block_text(rows, mode);
                if rows.len() > 0 {
                    lemma_block_text_row_ended(lines, at + 1, tokens(literal), mode);
                    assert(row_ended(head));
                } else {
                    lemma_block_lines_members(rows, mode);
                    assert(block_lines(rows, mode) =~= Seq::<Seq<char>>::empty());
                    assert(head =~= echo);
                }
                lemma_last_step(lines, at, at + 1 + rows.len(), paused, paused, head, newline);
            }
        },
    }
}

/// Where the last line is echoed, the output of the pass is the output
/// for the lines without the last, and then the last line with the
/// terminator after it.
pub proof fn lemma_run_drop_last(lines: Seq<Seq<char>>, at: int, paused: bool, newline: Seq<char>)
    requires
        0 <= at < lines.len(),
        run(lines, at, paused, newline) is Ok,
        !row_last(lines, at, paused),
    ensures
        run(lines.drop_last(), at, paused, newline) is Ok,
        run(lines, at, paused, newline)->Ok_0 == run(
            lines.drop_last(),
            at,
            paused,
            newline,
        )->Ok_0 + (lines.last() + newline),
    decreases lines.len() - at,
{
    let fore = lines.drop_last();
    let tail = lines.last() + newline;
    lemma_run_steps(lines, at, paused, newline);
    let t = transition(lines, at, paused, newline)->Ok_0;
    if let Scan::Delimiters { mode, literal } = scan(lines[at]) {
        let rows = block_rows(lines, at + 1, tokens(literal));
        lemma_block_rows(lines, at + 1, tokens(literal));
        if !paused && tokens(literal).len() > 0 {
            if rows.len() == 0 {
                lemma_block_lines_members(rows, mode);
                assert(block_lines(rows, mode) =~= Seq::<Seq<char>>::empty());
                assert(tail + block_text(rows, mode) =~= tail);
            }
            if at + 1 + rows.len() < lines.len() {
                lemma_block_rows_drop_last(lines, at + 1, tokens(literal));
            }
        }
    }
    if at == lines.len() - 1 {
        assert(run(lines, at, paused, newline)->Ok_0 =~= Seq::<char>::empty() + tail);
    } else {
        assert(fore[at] == lines[at]);
        assert(t.cursor < lines.len());
        lemma_run_drop_last(lines, t.cursor, t.paused, newline);
        lemma_run_steps(fore, at, paused, newline);
        let rest = run(fore, t.cursor, t.paused, newline)->Ok_0;
        assert(t.text + (rest + tail) =~= (t.text + rest) + tail);
    }
}

/// The step of `lemma_run_last`: the output from `at` on is `head` and then
/// the output from `next` on.
proof fn lemma_last_step(
    lines: Seq<Seq<char>>,
    at: int,
    next: int,
    paused: bool,
    then_paused: bool,
    head: Seq<char>,
    newline: Seq<char>,
)
    requires
        0 <= at < next <= lines.len(),
        run(lines, at, paused, newline) is Ok,
        run(lines, at, paused, newline) == then_text(
            head,
            run(lines, next, then_paused, newline),
        ),
        next < lines.len() ==> row_last(lines, at, paused) == row_last(lines, next, then_paused),
        next == lines.len() && row_last(lines, at, paused) ==> row_ended(head),
        next == lines.len() && !row_last(lines, at, paused) ==> next == at + 1 && head
            == lines[at] + newline,
    ensures
        row_last(lines, at, paused) ==> row_ended(run(lines, at, paused, newline)->Ok_0),
        !row_last(lines, at, paused) ==> ends_with(
            run(lines, at, paused, newline)->Ok_0,
            lines.last() + newline,
        ),
    decreases lines.len() - at, 0int,
{
    let rest = run(lines, next, then_paused, newline)->Ok_0;
    let text = head + rest;
    let tail = lines.last() + newline;
    if next < lines.len() {
        lemma_run_last(lines, next, then_paused, newline);
        if !row_last(lines, at, paused) {
            assert(text.subrange(text.len() - tail.len(), text.len() as int) =~= rest.subrange(
                rest.len() - tail.len(),
                rest.len() as int,
            ));
        } else {
            assert(text[text.len() - 1] == rest[rest.len() - 1]);
            assert(text[text.len() - 2] == rest[rest.len() - 2]);
        }
    } else {
        assert(text =~= head);
        if !row_last(lines, at, paused) {
            assert(lines.last() == lines[at]);
            assert(head.subrange(0, head.len() as int) =~= head);
        }
    }
}

/// A text of one line, or of more that a line feed ends, all but the last:
/// it ends in a line feed, and no other line feed or carriage return
/// stands in the line that the line feed ends.
pub open spec fn row_text(t: Seq<char>) -> bool {
    t.len() >= 2 && t.last() == '\n' && clean(t.drop_last())
}

/// The lines that replace a block are rows: each ends in the end-of-row
/// marker, and is clean and not empty before it.
pub proof fn lemma_block_lines_are_rows(
    lines: Seq<Seq<char>>,
    start: int,
    delims: Seq<Seq<char>>,
    mode: Mode,
)
    requires
        0 <= start <= lines.len(),
        delims.len() > 0,
        forall|k: int| 0 <= k < delims.len() ==> solid(#[trigger] delims[k]),
    ensures
        block_lines(block_rows(lines, start, delims), mode).len() == block_rows(
            lines,
            start,
            delims,
        ).len(),
        forall|i: int|
            0 <= i < block_rows(lines, start, delims).len() ==> row_text(
                #[trigger] block_lines(block_rows(lines, start, delims), mode)[i],
            ),
{
    let rows = block_rows(lines, start, delims);
    let plain = aligned_lines(rows);
    let block = block_lines(rows, mode);
    lemma_block_lines_members(rows, mode);
    assert forall|i: int| 0 <= i < rows.len() implies row_text(#[trigger] block[i]) by {
        assert(plain.contains(block[i]));
        let r = choose|r: int| 0 <= r < plain.len() && plain[r] == block[i];
        lemma_block_lines_well_ended(lines, start, delims, r);
        lemma_aligned_body_clean(lines, start, delims, r);
    }
}

/// Rows, one after the other, split into the rows without their
/// end-of-row markers; and so they do where the last marker is taken off.
pub proof fn lemma_split_rows(block: Seq<Seq<char>>)
    requires
        forall|i: int| 0 <= i < block.len() ==> row_text(#[trigger] block[i]),
    ensures
        split_lines(concat(block)) == bodies(block),
        block.len() > 0 ==> concat(block).len() > 0 && concat(block).last() == '\n'
            && split_lines(concat(block).drop_last()) == bodies(block),
    decreases block.len(),
{
    if block.len() == 0 {
        assert(bodies(block) =~= Seq::<Seq<char>>::empty());
    } else {
        let init = block.drop_last();
        let last = block.last();
        let body = last.drop_last();
        assert(row_text(block[block.len() - 1]));
        assert forall|i: int| 0 <= i < init.len() implies row_text(#[trigger] init[i]) by {
            assert(init[i] == block[i]);
        }
        lemma_split_rows(init);
        assert(last =~= body + seq!['\n']);
        lemma_split_one(body, seq!['\n']);
        lemma_split_add(concat(init), last);
        assert(bodies(block) =~= bodies(init) + seq![body]);
        assert(concat(block).drop_last() =~= concat(init) + body);
        lemma_split_add(concat(init), body);
        lemma_line_len_is(body, body.len() as int);
        assert(split_lines(body) =~= seq![body]);
    }
}

/// The text that the pass puts out splits into the lines that the pass
/// puts out, where the terminator is a line feed or a carriage return and a
/// line feed: with the terminator after the last line (`whole`), and
/// without it. The lines given hold no line feed; where the terminator is
/// the line feed, no line after which it is put ends in a carriage return;
/// and where the last terminator is taken off, the last line is not empty.
pub proof fn lemma_run_splits(
    lines: Seq<Seq<char>>,
    at: int,
    paused: bool,
    newline: Seq<char>,
    whole: bool,
)
    requires
        0 <= at <= lines.len(),
        run(lines, at, paused, newline) is Ok,
        splits(lines, newline, whole),
    ensures
        split_lines(made(run(lines, at, paused, newline)->Ok_0, newline, whole)) == out_lines(
            lines,
            at,
            paused,
        ),
    decreases lines.len() - at,
{
    if at < lines.len() {
        let line = lines[at];
        let echo = line + newline;
        assert(free_of(lines[at], '\n'));
        match scan(line) {
            Scan::Cancel => {},
            Scan::Malformed { column, reason } => {
                if paused && reason.in_list() {
                    lemma_splits_echo(lines, at, paused, paused, newline, whole);
                }
            },
            Scan::Plain => {
                lemma_splits_echo(lines, at, paused, paused, newline, whole);
            },
            Scan::Pause => {
                lemma_splits_echo(lines, at, paused, true, newline, whole);
            },
            Scan::Resume => {
                lemma_splits_echo(lines, at, paused, false, newline, whole);
            },
            Scan::Delimiters { mode, literal } => {
                let delims = tokens(literal);
                let rows = block_rows(lines, at + 1, delims);
                if paused || delims.len() == 0 {
                    lemma_splits_echo(lines, at, paused, paused, newline, whole);
                } else if rows.len() == 0 {
                    lemma_block_lines_members(rows, mode);
                    assert(block_lines(rows, mode) =~= Seq::<Seq<char>>::empty());
                    assert(bodies(block_lines(rows, mode)) =~= Seq::<Seq<char>>::empty());
                    assert(echo + block_text(rows, mode) =~= echo);
                    assert(seq![line] + bodies(block_lines(rows, mode)) =~= seq![line]);
                    lemma_splits_echo(lines, at, paused, paused, newline, whole);
                } else {
                    let block = block_lines(rows, mode);
                    let text = block_text(rows, mode);
                    let next = at + 1 + rows.len();
                    lemma_block_rows(lines, at + 1, delims);
                    lemma_tokens_solid(literal);
                    lemma_block_lines_are_rows(lines, at + 1, delims, mode);
                    lemma_split_rows(block);
                    assert(at < lines.len() - 1);
                    lemma_split_one(line, newline);
                    lemma_split_add(echo, text);
                    lemma_split_add(echo, text.drop_last());
                    assert((echo + text).drop_last() =~= echo + text.drop_last());
                    lemma_block_text_row_ended(lines, at + 1, delims, mode);
                    lemma_tail_of(echo + text, newline);
                    lemma_splits_step(
                        lines,
                        at,
                        next,
                        paused,
                        paused,
                        echo + text,
                        seq![line] + bodies(block),
                        newline,
                        whole,
                    );
                }
            },
        }
    } else {
        assert(made(Seq::<char>::empty(), newline, whole) =~= Seq::<char>::empty());
    }
}

/// The lines can be put out with `newline` after each and split again:
/// none holds a line feed; `newline` is a line feed, or a carriage return
/// and a line feed; where it is a line feed, no line after which it comes
/// to stand ends in a carriage return; and where the terminator after the
/// last line is taken off, the last line is not empty.
pub open spec fn splits(lines: Seq<Seq<char>>, newline: Seq<char>, whole: bool) -> bool {
    &&& forall|i: int| 0 <= i < lines.len() ==> free_of(#[trigger] lines[i], '\n')
    &&& newline == seq!['\n'] || newline == seq!['\r', '\n']
    &&& newline == seq!['\n'] ==> forall|i: int|
        0 <= i < lines.len() - 1 ==> tame(#[trigger] lines[i])
    &&& newline == seq!['\n'] && whole && lines.len() > 0 ==> tame(lines.last())
    &&& !whole && lines.len() > 0 ==> lines.last().len() > 0
}

/// The text that the pass has made, as it is, or without the terminator
/// after the last line.
pub open spec fn made(text: Seq<char>, newline: Seq<char>, whole: bool) -> Seq<char> {
    if whole {
        text
    } else {
        unterminated(text, newline)
    }
}

/// What it is to end with a line feed, or with a carriage return and a line
/// feed: a text that ends as a row ends, without its last character; and a
/// text that ends with the terminator, without the terminator.
proof fn lemma_tail_of(text: Seq<char>, newline: Seq<char>)
    requires
        newline == seq!['\n'] || newline == seq!['\r', '\n'],
    ensures
        row_ended(text) ==> unterminated(text, newline) == text.drop_last(),
        ends_with(text, newline) ==> unterminated(text, newline) == text.take(
            text.len() - newline.len(),
        ),
{
    if row_ended(text) {
        if ends_with(text, newline) {
            let end = text.subrange(text.len() - newline.len(), text.len() as int);
            assert(end[0] == newline[0]);
            assert(newline.len() == 1);
        }
    }
}

/// The step of `lemma_run_splits` for a line that is echoed.
proof fn lemma_splits_echo(
    lines: Seq<Seq<char>>,
    at: int,
    paused: bool,
    then_paused: bool,
    newline: Seq<char>,
    whole: bool,
)
    requires
        0 <= at < lines.len(),
        run(lines, at, paused, newline) is Ok,
        run(lines, at, paused, newline) == then_text(
            lines[at] + newline,
            run(lines, at + 1, then_paused, newline),
        ),
        out_lines(lines, at, paused) == seq![lines[at]] + out_lines(lines, at + 1, then_paused),
        splits(lines, newline, whole),
    ensures
        split_lines(made(run(lines, at, paused, newline)->Ok_0, newline, whole)) == out_lines(
            lines,
            at,
            paused,
        ),
    decreases lines.len() - at, 1int,
{
    let line = lines[at];
    let echo = line + newline;
    assert(free_of(lines[at], '\n'));
    if at < lines.len() - 1 || whole {
        if newline == seq!['\n'] {
            if at < lines.len() - 1 {
                assert(tame(lines[at]));
            } else {
                assert(lines.last() == lines[at]);
            }
        }
        lemma_split_one(line, newline);
    }
    if at == lines.len() - 1 {
        assert(lines.last() == lines[at]);
        assert(echo.subrange(echo.len() - newline.len(), echo.len() as int) =~= newline);
        lemma_tail_of(echo, newline);
        assert(echo.take(echo.len() - newline.len()) =~= line);
        if !whole {
            lemma_line_len_is(line, line.len() as int);
            assert(split_lines(line) =~= seq![line]);
        }
    }
    lemma_splits_step(lines, at, at + 1, paused, then_paused, echo, seq![line], newline, whole);
}

/// The step of `lemma_run_splits`: the output from `at` on is `head`,
/// which splits into `head_lines`, and then the output from `next` on.
proof fn lemma_splits_step(
    lines: Seq<Seq<char>>,
    at: int,
    next: int,
    paused: bool,
    then_paused: bool,
    head: Seq<char>,
    head_lines: Seq<Seq<char>>,
    newline: Seq<char>,
    whole: bool,
)
    requires
        0 <= at < next <= lines.len(),
        run(lines, at, paused, newline) is Ok,
        run(lines, at, paused, newline) == then_text(
            head,
            run(lines, next, then_paused, newline),
        ),
        out_lines(lines, at, paused) == head_lines + out_lines(lines, next, then_paused),
        splits(lines, newline, whole),
        head.len() > 0,
        head.last() == '\n',
        next < lines.len() || whole ==> split_lines(head) == head_lines,
        next == lines.len() && !whole ==> split_lines(unterminated(head, newline)) == head_lines,
    ensures
        split_lines(made(run(lines, at, paused, newline)->Ok_0, newline, whole)) == out_lines(
            lines,
            at,
            paused,
        ),
    decreases lines.len() - at, 0int,
{
    let rest = run(lines, next, then_paused, newline)->Ok_0;
    let text = head + rest;
    if next < lines.len() {
        lemma_run_splits(lines, next, then_paused, newline, whole);
        if whole {
            lemma_split_add(head, rest);
        } else {
            lemma_run_last(lines, next, then_paused, newline);
            let tail = lines.last() + newline;
            assert(rest.len() >= newline.len() && rest.len() >= 1) by {
                if !row_last(lines, next, then_paused) {
                    assert(rest.len() >= tail.len());
                }
            }
            assert(text.subrange(text.len() - newline.len(), text.len() as int)
                =~= rest.subrange(rest.len() - newline.len(), rest.len() as int));
            assert(unterminated(text, newline) =~= head + unterminated(rest, newline));
            lemma_split_add(head, unterminated(rest, newline));
        }
    } else {
        assert(text =~= head);
        assert(out_lines(lines, next, then_paused) =~= Seq::<Seq<char>>::empty());
        assert(head_lines + Seq::<Seq<char>>::empty() =~= head_lines);
    }
}

/// The pairs of the lines that count as a CR, all together.
pub open spec fn inner_cr(lines: Seq<Seq<char>>) -> nat
    decreases lines.len(),
{
    if lines.len() == 0 {
        0
    } else {
        count_pairs(lines[0], NewlineStyle::CR) + inner_cr(lines.drop_first())
    }
}

/// Lines of which each has no more pairs that count as a CR than the line
/// at its place among other lines have no more of them all together.
pub proof fn lemma_inner_cr_le(a: Seq<Seq<char>>, b: Seq<Seq<char>>)
    requires
        a.len() == b.len(),
        forall|i: int|
            0 <= i < a.len() ==> count_pairs(#[trigger] a[i], NewlineStyle::CR) <= count_pairs(
                b[i],
                NewlineStyle::CR,
            ),
    ensures
        inner_cr(a) <= inner_cr(b),
    decreases a.len(),
{
    if a.len() > 0 {
        assert(count_pairs(a[0], NewlineStyle::CR) <= count_pairs(b[0], NewlineStyle::CR));
        assert forall|i: int| 0 <= i < a.drop_first().len() implies count_pairs(
            #[trigger] a.drop_first()[i],
            NewlineStyle::CR,
        ) <= count_pairs(b.drop_first()[i], NewlineStyle::CR) by {
            assert(a.drop_first()[i] == a[i + 1]);
            assert(count_pairs(a[i + 1], NewlineStyle::CR) <= count_pairs(
                b[i + 1],
                NewlineStyle::CR,
            ));
        }
        lemma_inner_cr_le(a.drop_first(), b.drop_first());
    }
}

/// The line feeds that the lines get when they are echoed: one for each
/// line, or for each but the last.
pub open spec fn terminators(out: Seq<Seq<char>>, whole: bool) -> int {
    if whole {
        out.len() as int
    } else {
        out.len() - 1
    }
}

/// The terminators of a text, by its lines: each line feed counts as an LF
/// or, with a carriage return before it, as a CRLF, and one stands after
/// each line, or after each but the last; and at least as many pairs count
/// as a CR in the text as in its lines.
pub proof fn lemma_split_pairs(s: Seq<char>)
    requires
        s.len() > 0,
    ensures
        count_pairs(s, NewlineStyle::LF) + count_pairs(s, NewlineStyle::CRLF) == terminators(
            split_lines(s),
            s.last() == '\n',
        ),
        inner_cr(split_lines(s)) <= count_pairs(s, NewlineStyle::CR),
    decreases s.len(),
{
    let n = line_len(s);
    let lines = split_lines(s);
    lemma_line_len(s);
    if n >= s.len() {
        lemma_no_lf_no_crlf(s);
        lemma_no_lf_no_lf_pairs(s);
        assert(lines =~= seq![s]);
        assert(inner_cr(lines.drop_first()) == 0);
        assert(s[s.len() - 1] != '\n');
    } else {
        let head = s.take(n + 1);
        let rest = s.skip(n + 1);
        let body = s.take(n);
        assert(lines.drop_first() =~= split_lines(rest));
        assert(lines[0] == strip_cr(body));
        assert(head =~= body.push('\n'));
        lemma_count_pairs_push_lf(body);
        if body.len() > 0 && body.last() == '\r' {
            assert(count_pairs(body.drop_last(), NewlineStyle::CR) <= count_pairs(
                body,
                NewlineStyle::CR,
            ));
        }
        if rest.len() > 0 {
            lemma_split_pairs(rest);
            assert(s =~= head + rest);
            lemma_count_pairs_add(head, rest, NewlineStyle::CRLF);
            lemma_count_pairs_add(head, rest, NewlineStyle::LF);
            lemma_count_pairs_add(head, rest, NewlineStyle::CR);
            assert(head.last() == '\n');
            assert(rest.last() == s.last());
        } else {
            assert(s =~= head);
            assert(inner_cr(lines.drop_first()) == 0);
        }
    }
}

/// The terminators of lines that split back, echoed with line feeds: none
/// counts as a CRLF; each line feed counts as an LF; and as many pairs
/// count as a CR as in the lines themselves.
pub proof fn lemma_echo_text_pairs(out: Seq<Seq<char>>, whole: bool)
    requires
        splits_back(out, whole),
    ensures
        count_pairs(echo_text(out, whole), NewlineStyle::CRLF) == 0,
        count_pairs(echo_text(out, whole), NewlineStyle::LF) == terminators(out, whole),
        count_pairs(echo_text(out, whole), NewlineStyle::CR) == inner_cr(out),
        echo_text(out, whole).len() > 0,
    decreases out.len(),
{
    let nl = seq!['\n'];
    let first = out[0];
    let rest = out.drop_first();
    assert(free_of(out[0], '\n'));
    lemma_no_lf_no_crlf(first);
    lemma_no_lf_no_lf_pairs(first);
    if out.len() == 1 {
        assert(out =~= seq![first]);
        lemma_echo_one(first, nl);
        assert(inner_cr(rest) == 0);
        if whole {
            assert(first + nl =~= first.push('\n'));
            lemma_count_pairs_push_lf(first);
        } else {
            assert((first + nl).drop_last() =~= first);
        }
    } else {
        lemma_splits_back_rest(out, whole);
        lemma_echo_text_pairs(rest, whole);
        let rest_text = echo_text(rest, whole);
        let text = echo_text(out, whole);
        let head = first.push('\n');
        assert(echo_all(out, nl) == first + nl + echo_all(rest, nl));
        assert(text =~= head + rest_text);
        lemma_count_pairs_push_lf(first);
        lemma_count_pairs_add(head, rest_text, NewlineStyle::CRLF);
        lemma_count_pairs_add(head, rest_text, NewlineStyle::LF);
        lemma_count_pairs_add(head, rest_text, NewlineStyle::CR);
        assert(head.last() == '\n');
    }
}

} // verus!
