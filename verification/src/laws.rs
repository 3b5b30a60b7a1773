//! What holds of the engine as a whole.

use vstd::prelude::*;
use vstd::relations::sorted_by;
use crate::block::{block_rows, joins_block, lemma_block_rows, lemma_split_row, split_row};
use crate::collapse::{lemma_unblank_add, lemma_unblank_squeeze, unblank};
use crate::columns::{
    aligned_lines, column_width, concat, lemma_column_width, lemma_concat_push,
    lemma_padded_columns, padded_row, uniform,
};
use crate::directive::{has_marker, lemma_scan_plain, marker, scan, Mode, Scan};
use crate::engine::{align, block_lines, block_text, run, sorts, then_text, without_last};
use crate::error::AlignmentError;
use crate::lines::{
    lemma_line_len_is, lemma_lines_hold_less, lemma_lines_tame, lemma_split_lines, split_lines,
    tame,
};
use crate::newline::{all_crlf, count_pairs, lemma_no_cr_is_lf, newline_style, NewlineStyle};
use crate::passes::{
    aborts_at, echo_all, echo_only, echo_text, lemma_block_lines_members, lemma_cancel_wins,
    lemma_echo_free, lemma_echo_nonempty, lemma_echo_one, lemma_echo_paired, lemma_echo_text_pairs,
    lemma_inner_cr_le, lemma_out_lines_kinds, lemma_out_lines_shape, lemma_rejoin,
    lemma_rejoin_crlf, lemma_rejoin_len, lemma_run_drop_last, lemma_run_echo, lemma_run_is_echo,
    lemma_run_last, lemma_run_splits, lemma_split_pairs, out_lines, row_last, splits, splits_back,
};
use crate::sort::{lemma_sorted_texts, lex_order, sorted_texts};
use crate::stability::{
    lemma_padded_widens, lemma_run_again, lemma_split_row_neat, lemma_unblank_concat,
    lemma_unblank_widens,
};
use crate::text::{ends_with, free_of, lemma_find, occurs_in, spaces, squeeze, text_width, tokens};

verus! {

/// The text ends in a line feed.
pub open spec fn ends_in_line_feed(doc: Seq<char>) -> bool {
    doc.len() > 0 && doc.last() == '\n'
}

/// The aligned document is read back as the pass has put it out: with the
/// dominant terminator of the document, with the lines that the pass has
/// put out, and ending with that terminator exactly where the document
/// does.
pub open spec fn reads_back(doc: Seq<char>) -> bool {
    let out = align(doc)->Ok_0;
    let newline = newline_style(doc).terminator();
    &&& align(doc) is Ok
    &&& newline_style(out) == newline_style(doc)
    &&& split_lines(out) == out_lines(split_lines(doc), 0, false)
    &&& ends_with(out, newline) == ends_with(doc, newline)
}

/// Idempotence: a document that the engine has aligned comes out of the
/// engine as it went in, wherever the aligned document is read back as the
/// pass has put it out. Aligning twice is aligning once.
///
/// The premise can fail where another terminator than the line feed is
/// dominant and a block has rows, since rows end in a line feed: the second
/// pass may then find another dominant terminator than the first, or other
/// lines; and where a carriage return is dominant and ends the document,
/// each pass puts one more after it. `lemma_document_reads_back` shows the
/// documents that meet the premise under the line feed and under the
/// carriage return with a line feed;
/// `lemma_line_feed_document_is_kept` shows that every document under the
/// line feed whose lines end plainly meets it;
/// `lemma_unchanged_document_is_kept` shows more.
pub proof fn lemma_aligned_document_is_kept(doc: Seq<char>)
    requires
        reads_back(doc),
    ensures
        align(align(doc)->Ok_0) == align(doc),
{
    let nl = newline_style(doc).terminator();
    let lines = split_lines(doc);
    let again = out_lines(lines, 0, false);
    lemma_out_lines_shape(lines, 0, false, nl);
    assert(again.skip(0) =~= again);
    lemma_run_again(lines, again, 0, false, nl);
}

/// Idempotence, line by line: over the lines that the pass has put out, a
/// second pass puts out the same text, whatever the lines hold and
/// whatever the terminator is. The lines put out are the lines echoed and
/// the lines of the aligned blocks, without their end-of-row markers.
pub proof fn lemma_aligned_lines_are_kept(lines: Seq<Seq<char>>, newline: Seq<char>)
    requires
        run(lines, 0, false, newline) is Ok,
    ensures
        out_lines(lines, 0, false).len() == lines.len(),
        run(out_lines(lines, 0, false), 0, false, newline) == run(lines, 0, false, newline),
{
    let again = out_lines(lines, 0, false);
    lemma_out_lines_shape(lines, 0, false, newline);
    assert(again.skip(0) =~= again);
    lemma_run_again(lines, again, 0, false, newline);
}

/// A document that the engine leaves as it is is left as it is again: so
/// is every document without the marker whose terminators are all of its
/// dominant kind, whatever that kind is.
pub proof fn lemma_unchanged_document_is_kept(doc: Seq<char>)
    requires
        align(doc) == Ok::<Seq<char>, AlignmentError>(doc),
    ensures
        align(align(doc)->Ok_0) == align(doc),
{
}

/// A document without a line feed is one line, or none. Whatever the line
/// holds, it comes out as it is, if it comes out at all; but where the
/// document ends with its dominant terminator, which is then the carriage
/// return, the terminator follows it once more.
pub proof fn lemma_one_line_document_comes_out(doc: Seq<char>)
    requires
        free_of(doc, '\n'),
        align(doc) is Ok,
    ensures
        align(doc) == Ok::<Seq<char>, AlignmentError>(
            if ends_with(doc, newline_style(doc).terminator()) {
                doc + newline_style(doc).terminator()
            } else {
                doc
            },
        ),
{
    let nl = newline_style(doc).terminator();
    let lines = split_lines(doc);
    let out = align(doc)->Ok_0;
    lemma_split_lines(doc);
    if doc.len() == 0 {
        assert(lines =~= Seq::<Seq<char>>::empty());
        assert(out =~= doc);
    } else {
        lemma_line_len_is(doc, doc.len() as int);
        assert(lines =~= seq![doc]);
        let text = run(lines, 0, false, nl)->Ok_0;
        assert(run(lines, 1, true, nl) == Ok::<Seq<char>, AlignmentError>(Seq::empty()));
        assert(run(lines, 1, false, nl) == Ok::<Seq<char>, AlignmentError>(Seq::empty()));
        if let Scan::Delimiters { mode, literal } = scan(lines[0]) {
            let rows = block_rows(lines, 1, tokens(literal));
            lemma_block_rows(lines, 1, tokens(literal));
            lemma_block_lines_members(rows, mode);
            assert(block_lines(rows, mode) =~= Seq::<Seq<char>>::empty());
            assert(doc + nl + block_text(rows, mode) =~= doc + nl);
        }
        assert(text =~= doc + nl);
        assert(text.subrange(text.len() - nl.len(), text.len() as int) =~= nl);
        assert(text.take(text.len() - nl.len()) =~= doc);
    }
}

/// The end of the document is kept. Where the last line is a row of a
/// block, the document does not end with its dominant terminator, unless
/// that is the line feed. Where the last line is echoed, the document ends
/// with its dominant terminator or does not end in a line feed; or the
/// last line does not end in the carriage return that is the dominant
/// terminator; or it is empty and the line before it, if there is one, is a
/// row of a block.
pub open spec fn keeps_its_end(doc: Seq<char>) -> bool {
    let newline = newline_style(doc).terminator();
    let lines = split_lines(doc);
    if row_last(lines, 0, false) {
        ends_with(doc, newline) ==> newline_style(doc) == NewlineStyle::LF
    } else if ends_with(doc, newline) || !ends_in_line_feed(doc) {
        true
    } else if lines.last().len() > 0 {
        newline_style(doc) == NewlineStyle::CR ==> lines.last().last() != '\r'
    } else {
        lines.len() >= 2 ==> row_last(lines.drop_last(), 0, false)
    }
}

/// Trailing-newline fidelity: the aligned document ends with the dominant
/// terminator of the document exactly when the document does; and this
/// holds of exactly the documents whose end is kept. Among them are all
/// documents under the line feed, and all documents whose terminators are
/// all of the dominant kind and whose last line is echoed.
///
/// Rows of a block end in a line feed whatever the terminator is, and
/// lines end at line feeds only. So the law fails where another terminator
/// than the line feed is dominant and the document ends with it in a row of
/// a block, as `"align_by \"=\"\r\na=1\r\n"` does. It fails too where the
/// document ends in a line feed that is not the end of its dominant
/// terminator and the text before that line feed ends with the terminator
/// when it comes out, as in `"a\r\nb\r\nc\r\n\n"`.
pub proof fn lemma_trailing_newline_is_kept(doc: Seq<char>)
    requires
        align(doc) is Ok,
    ensures
        (ends_with(align(doc)->Ok_0, newline_style(doc).terminator()) <==> ends_with(
            doc,
            newline_style(doc).terminator(),
        )) <==> keeps_its_end(doc),
{
    let nl = newline_style(doc).terminator();
    let lines = split_lines(doc);
    let text = run(lines, 0, false, nl)->Ok_0;
    let out = align(doc)->Ok_0;
    let whole = ends_with(doc, nl);
    lemma_split_lines(doc);
    lemma_tail_ends(doc, nl);
    lemma_tail_ends(out, nl);
    if doc.len() == 0 {
        assert(text =~= Seq::<char>::empty());
        assert(!row_last(lines, 0, false));
    } else {
        lemma_run_last(lines, 0, false, nl);
        lemma_tail_ends(text, nl);
        if row_last(lines, 0, false) {
            if !whole {
                assert(out =~= text.drop_last());
            }
        } else {
            let last = lines.last();
            let tail = last + nl;
            let fore = lines.drop_last();
            lemma_run_drop_last(lines, 0, false, nl);
            let made = run(fore, 0, false, nl)->Ok_0;
            assert(text == made + tail);
            assert(free_of(lines[lines.len() - 1], '\n'));
            assert(text.last() == tail[tail.len() - 1]);
            if nl.len() == 2 {
                assert(text[text.len() - 2] == tail[tail.len() - 2]);
            }
            assert(ends_with(text, nl));
            if !whole {
                assert(out =~= made + last);
                if last.len() > 0 {
                    assert(out.last() == last.last());
                } else if lines.len() >= 2 {
                    let before = fore.last() + nl;
                    lemma_run_last(fore, 0, false, nl);
                    lemma_tail_ends(made, nl);
                    if !row_last(fore, 0, false) {
                        assert(made.subrange(made.len() - nl.len(), made.len() as int)
                            =~= made.subrange(
                            made.len() - before.len(),
                            made.len() as int,
                        ).subrange(before.len() - nl.len(), before.len() as int));
                        assert(before.subrange(before.len() - nl.len(), before.len() as int)
                            =~= nl);
                    }
                } else {
                    assert(fore =~= Seq::<Seq<char>>::empty());
                    assert(made =~= Seq::<char>::empty());
                }
            }
        }
    }
}

/// The lines of the document end plainly: no line that a line feed ends
/// ends in a carriage return, the carriage return directly before the line
/// feed left aside. So no two carriage returns stand directly before a line
/// feed.
pub open spec fn ends_its_lines_plainly(doc: Seq<char>) -> bool {
    let lines = split_lines(doc);
    &&& forall|i: int| 0 <= i < lines.len() - 1 ==> tame(#[trigger] lines[i])
    &&& ends_in_line_feed(doc) ==> tame(lines.last())
}

/// Idempotence where the terminator stays: an aligned document comes out
/// of the engine as it went in, and is read back as the pass has put it
/// out, wherever it keeps the dominant terminator of the document, if that
/// is the line feed or the carriage return with a line feed. Where it is
/// the line feed, the lines of the document must end plainly. Where it is
/// the carriage return with a line feed, a line feed that ends the document
/// must be the end of a terminator, and must not end a row of a block.
pub proof fn lemma_document_reads_back(doc: Seq<char>)
    requires
        align(doc) is Ok,
        newline_style(doc) != NewlineStyle::CR,
        newline_style(doc) == NewlineStyle::LF ==> ends_its_lines_plainly(doc),
        newline_style(doc) == NewlineStyle::CRLF ==> (ends_in_line_feed(doc) ==> ends_with(
            doc,
            newline_style(doc).terminator(),
        ) && !row_last(split_lines(doc), 0, false)),
        newline_style(align(doc)->Ok_0) == newline_style(doc),
    ensures
        reads_back(doc),
        align(align(doc)->Ok_0) == align(doc),
{
    let nl = newline_style(doc).terminator();
    let lines = split_lines(doc);
    let whole = ends_with(doc, nl);
    lemma_split_lines(doc);
    lemma_tail_ends(doc, nl);
    lemma_trailing_newline_is_kept(doc);
    if lines.len() > 0 {
        assert(lines.last() == lines[lines.len() - 1]);
    }
    assert(splits(lines, nl, whole));
    lemma_run_splits(lines, 0, false, nl, whole);
    lemma_aligned_document_is_kept(doc);
}

/// Idempotence under the line feed: where line feed is the dominant
/// terminator of a document and the lines of the document end plainly, the
/// aligned document comes out of the engine as it went in. Line feed is its
/// dominant terminator too, no carriage return stands directly before a
/// line feed in it, and it is read back as the pass has put it out.
///
/// Among these documents are all in which no carriage return stands
/// directly before a line feed, whatever else they hold.
pub proof fn lemma_line_feed_document_is_kept(doc: Seq<char>)
    requires
        newline_style(doc) == NewlineStyle::LF,
        ends_its_lines_plainly(doc),
        align(doc) is Ok,
    ensures
        align(align(doc)->Ok_0) == align(doc),
        reads_back(doc),
        count_pairs(align(doc)->Ok_0, NewlineStyle::CRLF) == 0,
{
    let nl = seq!['\n'];
    let lines = split_lines(doc);
    let out = align(doc)->Ok_0;
    let text = run(lines, 0, false, nl)->Ok_0;
    let again = out_lines(lines, 0, false);
    let whole = ends_in_line_feed(doc);
    assert(newline_style(doc).terminator() == nl);
    lemma_tail_ends(doc, nl);
    lemma_split_lines(doc);
    lemma_run_is_echo(lines, 0, false);
    lemma_out_lines_kinds(lines, 0, false, nl);
    lemma_out_lines_shape(lines, 0, false, nl);
    if doc.len() == 0 {
        assert(again =~= Seq::<Seq<char>>::empty());
        assert(out =~= doc);
    } else {
        lemma_split_pairs(doc);
        assert(splits_back(again, whole)) by {
            assert forall|i: int| 0 <= i < again.len() implies free_of(
                #[trigger] again[i],
                '\n',
            ) by {
                assert(free_of(lines[0 + i], '\n'));
            }
            assert forall|i: int| 0 <= i < again.len() - 1 implies tame(#[trigger] again[i]) by {
                assert(tame(lines[0 + i]));
            }
            assert(again.last() == again[again.len() - 1]);
            assert(lines.last() == lines[0 + (again.len() - 1)]);
        }
        lemma_echo_nonempty(again, nl);
        assert(out =~= echo_text(again, whole));
        lemma_echo_text_pairs(again, whole);
        assert forall|i: int| 0 <= i < again.len() implies count_pairs(
            #[trigger] again[i],
            NewlineStyle::CR,
        ) <= count_pairs(lines[i], NewlineStyle::CR) by {
            if again[i] != lines[0 + i] {
                lemma_no_cr_is_lf(again[i]);
            }
        }
        lemma_inner_cr_le(again, lines);
        assert(newline_style(out) == NewlineStyle::LF);
    }
    lemma_document_reads_back(doc);
}

/// Where no carriage return stands directly before a line feed, the lines
/// of the document end plainly.
pub proof fn lemma_lines_end_plainly(doc: Seq<char>)
    requires
        count_pairs(doc, NewlineStyle::CRLF) == 0,
    ensures
        ends_its_lines_plainly(doc),
{
    lemma_lines_tame(doc);
}

/// The terminators of the document are all of its dominant kind: where
/// line feed is dominant, no line feed stands after a carriage return;
/// where CRLF is dominant, every line feed stands after a carriage return;
/// where CR is dominant, the document holds no line feed, and no carriage
/// return ends it.
pub open spec fn keeps_its_terminators(doc: Seq<char>) -> bool {
    match newline_style(doc) {
        NewlineStyle::LF => count_pairs(doc, NewlineStyle::CRLF) == 0,
        NewlineStyle::CRLF => all_crlf(doc),
        NewlineStyle::CR => free_of(doc, '\n') && !ends_with(doc, seq!['\r']),
    }
}

/// No-op preservation: a document that does not hold the marker comes out
/// as it is exactly when its terminators are all of its dominant kind; and
/// it always comes out as a text. Under the line feed and under the
/// carriage return with a line feed this is so whether or not a terminator
/// ends the document.
///
/// Lines end at line feeds only, so a document under the carriage return
/// is one line where it holds no line feed. Where a carriage return ends
/// it, the document ends with its dominant terminator, and comes out with
/// that terminator after its one line: with one carriage return more.
pub proof fn lemma_plain_document_is_kept(doc: Seq<char>)
    requires
        !occurs_in(doc, marker()),
    ensures
        align(doc) is Ok,
        align(doc) == Ok::<Seq<char>, AlignmentError>(doc) <==> keeps_its_terminators(doc),
{
    let lines = split_lines(doc);
    let nl = newline_style(doc).terminator();
    let whole = ends_with(doc, nl);
    lemma_lines_hold_less(doc, marker());
    assert forall|k: int| 0 <= k < lines.len() implies echo_only(#[trigger] lines[k], false) by {
        lemma_find(lines[k], marker());
        lemma_scan_plain(lines[k]);
    }
    lemma_run_echo(lines, 0, lines.len() as int, false, nl);
    assert(lines.subrange(0, lines.len() as int) =~= lines);
    let text = echo_all(lines, nl);
    assert(text + Seq::<char>::empty() =~= text);
    assert(run(lines, 0, false, nl) == Ok::<Seq<char>, AlignmentError>(text));
    let out = align(doc)->Ok_0;
    lemma_split_lines(doc);
    lemma_tail_ends(doc, nl);
    if doc.len() == 0 {
        assert(lines =~= Seq::<Seq<char>>::empty());
        assert(out =~= doc);
        assert(all_crlf(doc));
    } else {
        lemma_echo_nonempty(lines, nl);
        assert(out == if whole {
            text
        } else {
            without_last(text, nl.len())
        });
        match newline_style(doc) {
            NewlineStyle::LF => {
                lemma_rejoin_len(doc);
                if count_pairs(doc, NewlineStyle::CRLF) == 0 {
                    lemma_rejoin(doc);
                    if !whole {
                        assert(doc.push('\n').take(doc.len() as int) =~= doc);
                    }
                }
            },
            NewlineStyle::CRLF => {
                if all_crlf(doc) {
                    lemma_rejoin_crlf(doc);
                    if !whole {
                        assert((doc + nl).take(doc.len() as int) =~= doc);
                    }
                } else {
                    lemma_echo_paired(lines);
                    if out == doc {
                        assert forall|i: int| 0 <= i < doc.len() && #[trigger] doc[i]
                            == '\n' implies i > 0 && doc[i - 1] == '\r' by {
                            assert(out[i] == text[i]);
                            assert(text[i] == '\n');
                            assert(out[i - 1] == text[i - 1]);
                        }
                    }
                }
            },
            NewlineStyle::CR => {
                if free_of(doc, '\n') {
                    lemma_line_len_is(doc, doc.len() as int);
                    assert(lines =~= seq![doc]);
                    lemma_echo_one(doc, nl);
                    assert((doc + nl).take(doc.len() as int) =~= doc);
                } else {
                    lemma_echo_free(lines, nl, '\n');
                    let k = choose|k: int| 0 <= k < doc.len() && doc[k] == '\n';
                    if out == doc {
                        assert(out[k] == text[k]);
                    }
                }
            },
        }
    }
}

/// What it is to end with a terminator, character by character.
proof fn lemma_tail_ends(s: Seq<char>, newline: Seq<char>)
    requires
        newline == seq!['\n'] || newline == seq!['\r'] || newline == seq!['\r', '\n'],
    ensures
        ends_with(s, newline) <==> if newline.len() == 1 {
            s.len() >= 1 && s[s.len() - 1] == newline[0]
        } else {
            s.len() >= 2 && s[s.len() - 2] == '\r' && s[s.len() - 1] == '\n'
        },
{
    if s.len() >= newline.len() {
        let end = s.subrange(s.len() - newline.len(), s.len() as int);
        if ends_with(s, newline) {
            assert(end[0] == newline[0]);
            if newline.len() == 2 {
                assert(end[1] == newline[1]);
            }
        } else if newline.len() == 1 {
            if s[s.len() - 1] == newline[0] {
                assert(end =~= newline);
            }
        } else if s[s.len() - 2] == '\r' && s[s.len() - 1] == '\n' {
            assert(end =~= newline);
        }
    }
}

/// Column invariant: in a block, the cells of every padded column are all
/// of one width, and that width is the greatest width that a cell of the
/// column had before padding.
pub proof fn lemma_column_invariant(rows: Seq<Seq<Seq<char>>>, n: nat, j: int)
    requires
        rows.len() > 0,
        uniform(rows, n),
        0 <= j < n - 2,
    ensures
        forall|r: int|
            0 <= r < rows.len() ==> text_width(#[trigger] padded_row(rows, r)[j]) == column_width(
                rows,
                j,
            ),
        forall|r: int|
            0 <= r < rows.len() ==> text_width(#[trigger] rows[r][j]) <= column_width(rows, j),
        exists|r: int|
            0 <= r < rows.len() && text_width(#[trigger] rows[r][j]) == column_width(rows, j),
{
    lemma_column_width(rows, j);
    assert forall|r: int| 0 <= r < rows.len() implies text_width(
        #[trigger] padded_row(rows, r)[j],
    ) == column_width(rows, j) by {
        assert(rows[r].len() == n);
        lemma_padded_columns(rows, r, j);
    }
}

/// Order preservation: where the mode does not sort, the text of a block
/// is its aligned lines in the order of the rows, one line for each row,
/// and every cell of a line begins with the cell of its row and goes on
/// with spaces only.
pub proof fn lemma_order_is_kept(rows: Seq<Seq<Seq<char>>>, mode: Mode, r: int, j: int)
    requires
        !sorts(mode),
        0 <= r < rows.len(),
        0 <= j < rows[r].len(),
    ensures
        block_text(rows, mode) == concat(aligned_lines(rows)),
        aligned_lines(rows).len() == rows.len(),
        aligned_lines(rows)[r] == concat(padded_row(rows, r)),
        padded_row(rows, r).len() == rows[r].len(),
        exists|gap: nat| padded_row(rows, r)[j] == rows[r][j] + #[trigger] spaces(gap),
{
    if j < rows[r].len() - 2 {
        lemma_padded_columns(rows, r, j);
        let gap = (column_width(rows, j) - text_width(rows[r][j])) as nat;
        assert(padded_row(rows, r)[j] == rows[r][j] + spaces(gap));
    } else {
        assert(rows[r][j] + spaces(0) =~= rows[r][j]);
    }
}

/// Alignment changes nothing but whitespace: line `r` of an aligned block
/// has the non-blank characters of line `r` of the block, in their order.
pub proof fn lemma_aligned_line_keeps_text(
    lines: Seq<Seq<char>>,
    start: int,
    delims: Seq<Seq<char>>,
    r: int,
)
    requires
        0 <= start <= lines.len(),
        0 <= r < block_rows(lines, start, delims).len(),
    ensures
        unblank(aligned_lines(block_rows(lines, start, delims))[r]) == unblank(lines[start + r]),
{
    lemma_block_rows(lines, start, delims);
    let rows = block_rows(lines, start, delims);
    let row = rows[r];
    let padded = padded_row(rows, r);
    let text = squeeze(lines[start + r]);
    assert(joins_block(lines[start + r], delims));
    lemma_split_row(text, delims);
    lemma_split_row_neat(text, delims);
    assert forall|j: int| 0 <= j < padded.len() implies unblank(#[trigger] padded[j]) == unblank(
        row[j],
    ) by {
        lemma_padded_widens(rows, r, j);
        lemma_unblank_widens(row[j], padded[j]);
    }
    lemma_unblank_concat(padded, row);
    assert(row =~= row.drop_last().push(row.last()));
    lemma_concat_push(row.drop_last(), row.last());
    lemma_unblank_add(text, row.last());
    reveal_strlit("\n");
    assert(unblank("\n"@) =~= Seq::<char>::empty()) by {
        assert("\n"@.last() == '\n');
        assert(unblank("\n"@.drop_last()) =~= Seq::<char>::empty());
    }
    assert(unblank(text) + unblank(row.last()) =~= unblank(text));
    lemma_unblank_squeeze(lines[start + r]);
}

/// The `regex` keyword changes nothing: delimiters are matched literally
/// in every mode, and a block comes out the same with the keyword and
/// without.
pub proof fn lemma_regex_modes_match_literally(rows: Seq<Seq<Seq<char>>>)
    ensures
        block_text(rows, Mode::Regex) == block_text(rows, Mode::Normal),
        block_text(rows, Mode::RegexSort) == block_text(rows, Mode::Sort),
{
}

/// Sort correctness: where the mode sorts, the text of a block is its
/// aligned lines, each as often as it came out of the alignment, in
/// non-decreasing lexicographic order.
pub proof fn lemma_sorted_block(rows: Seq<Seq<Seq<char>>>, mode: Mode)
    requires
        sorts(mode),
    ensures
        block_text(rows, mode) == concat(sorted_texts(aligned_lines(rows))),
        sorted_by(sorted_texts(aligned_lines(rows)), lex_order()),
        sorted_texts(aligned_lines(rows)).to_multiset() == aligned_lines(rows).to_multiset(),
{
    lemma_sorted_texts(aligned_lines(rows));
}

/// Partial-block fallback: the block under a delimiter list ends before the
/// first line that lacks a delimiter. The rows of the block are the lines
/// before it; the line itself is no row, and comes out as it is, after the
/// text of the block; the pass goes on with the line after it.
pub proof fn lemma_block_stops_at_missing_delimiter(
    lines: Seq<Seq<char>>,
    at: int,
    stop: int,
    newline: Seq<char>,
)
    requires
        0 <= at < stop < lines.len(),
        scan(lines[at]) is Delimiters,
        tokens(scan(lines[at])->literal).len() > 0,
        forall|k: int|
            at < k < stop ==> joins_block(#[trigger] lines[k], tokens(scan(lines[at])->literal)),
        !has_marker(lines[stop]),
        split_row(squeeze(lines[stop]), tokens(scan(lines[at])->literal)) is None,
    ensures
        block_rows(lines, at + 1, tokens(scan(lines[at])->literal)).len() == stop - at - 1,
        run(lines, at, false, newline) == then_text(
            lines[at] + newline + block_text(
                block_rows(lines, at + 1, tokens(scan(lines[at])->literal)),
                scan(lines[at])->mode,
            ),
            then_text(lines[stop] + newline, run(lines, stop + 1, false, newline)),
        ),
{
    let delims = tokens(scan(lines[at])->literal);
    let rows = block_rows(lines, at + 1, delims);
    lemma_block_rows(lines, at + 1, delims);
    if at + 1 + rows.len() < stop {
        assert(joins_block(lines[at + 1 + rows.len()], delims));
    }
    if at + 1 + rows.len() > stop {
        assert(joins_block(lines[(at + 1) + (stop - at - 1)], delims));
    }
    lemma_scan_plain(lines[stop]);
    assert(at + 1 + rows.len() == stop);
    assert(run(lines, stop, false, newline) == then_text(
        lines[stop] + newline,
        run(lines, stop + 1, false, newline),
    ));
    match scan(lines[at]) {
        Scan::Delimiters { mode, literal } => {
            assert(run(lines, at, false, newline) == then_text(
                lines[at] + newline + block_text(rows, mode),
                run(lines, at + 1 + rows.len(), false, newline),
            ));
        },
        _ => {},
    }
}

/// Pause and resume: the lines after a pause directive are echoed as they
/// are, delimiter lists and lines that could be aligned among them, up to
/// the next line that holds a resume or cancel directive or a marker
/// without its space.
pub proof fn lemma_paused_lines_are_echoed(
    lines: Seq<Seq<char>>,
    pause: int,
    to: int,
    paused: bool,
    newline: Seq<char>,
)
    requires
        0 <= pause < to <= lines.len(),
        scan(lines[pause]) is Pause,
        forall|k: int| pause < k < to ==> echo_only(#[trigger] lines[k], true),
    ensures
        run(lines, pause, paused, newline) == then_text(
            echo_all(lines.subrange(pause, to), newline),
            run(lines, to, true, newline),
        ),
{
    lemma_run_echo(lines, pause + 1, to, true, newline);
    let rest = run(lines, to, true, newline);
    let tail = echo_all(lines.subrange(pause + 1, to), newline);
    assert(lines.subrange(pause, to).drop_first() =~= lines.subrange(pause + 1, to));
    assert(lines.subrange(pause, to)[0] == lines[pause]);
    if let Ok(t) = rest {
        assert((lines[pause] + newline) + (tail + t) =~= (lines[pause] + newline + tail) + t);
    }
}

/// Cancellation, of a document: where one of its lines holds a cancel
/// directive and the pass does not end with a fault before that line, the
/// document is canceled.
pub proof fn lemma_cancel_document(doc: Seq<char>, cancel: int)
    requires
        0 <= cancel < split_lines(doc).len(),
        scan(split_lines(doc)[cancel]) is Cancel,
        forall|k: int| 0 <= k < cancel ==> !aborts_at(split_lines(doc), k),
    ensures
        align(doc) == Err::<Seq<char>, AlignmentError>(AlignmentError::FileCanceled),
{
    lemma_cancel_wins(split_lines(doc), 0, cancel, newline_style(doc).terminator());
}

} // verus!
