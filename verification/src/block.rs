//! Splitting a line into cells at a sequence of delimiters, and collecting
//! the block of lines under a delimiter list.

use vstd::prelude::*;
use vstd::slice::slice_subrange;
use crate::directive::{has_marker, line_has_marker};
use crate::text::{
    chars_of, copy_range, find, find_text, free_of, lemma_find, lemma_width_subrange, matches_at,
    squeeze, squeeze_blanks, string_of, text_width, texts,
};

verus! {

/// The views of the elements of a sequence of strings.
pub open spec fn string_texts(v: Seq<String>) -> Seq<Seq<char>> {
    Seq::new(v.len(), |i: int| v[i]@)
}

/// The views of the cells of a sequence of rows.
pub open spec fn row_texts(v: Seq<Vec<Vec<char>>>) -> Seq<Seq<Seq<char>>> {
    Seq::new(v.len(), |i: int| texts(v[i]@))
}

/// `cells` before what `rest` holds, if it holds anything.
pub open spec fn prepend_cells(cells: Seq<Seq<char>>, rest: Option<Seq<Seq<char>>>) -> Option<
    Seq<Seq<char>>,
> {
    match rest {
        None => None,
        Some(r) => Some(cells + r),
    }
}

/// The row of `s` under `delims`: `s` is cut at the first occurrence of the
/// first delimiter, what follows it at the first occurrence of the second,
/// and so on. The row holds the text before each delimiter and the
/// delimiter in turn, then what is left, then the end-of-row marker, a
/// line feed. There is no row where a delimiter is not found.
pub open spec fn split_row(s: Seq<char>, delims: Seq<Seq<char>>) -> Option<Seq<Seq<char>>>
    decreases delims.len(),
{
    if delims.len() == 0 {
        Some(seq![s, "\n"@])
    } else {
        match find(s, delims[0]) {
            None => None,
            Some(i) => prepend_cells(
                seq![s.take(i), delims[0]],
                split_row(s.skip(i + delims[0].len()), delims.drop_first()),
            ),
        }
    }
}

/// A row has two cells for each delimiter and two more, and no cell is
/// wider than the text that was split, the end-of-row marker aside.
pub proof fn lemma_split_row(s: Seq<char>, delims: Seq<Seq<char>>)
    ensures
        split_row(s, delims) matches Some(row) ==> {
            &&& row.len() == 2 * delims.len() + 2
            &&& row.last() == "\n"@
            &&& forall|j: int|
                0 <= j < row.len() - 1 ==> text_width(#[trigger] row[j]) <= text_width(s)
            &&& forall|k: int| 0 <= k < delims.len() ==> #[trigger] row[2 * k + 1] == delims[k]
        },
    decreases delims.len(),
{
    if delims.len() == 0 {
        assert(seq![s, "\n"@][0] == s);
    } else {
        lemma_find(s, delims[0]);
        match find(s, delims[0]) {
            None => {},
            Some(i) => {
                let tail = s.skip(i + delims[0].len());
                lemma_split_row(tail, delims.drop_first());
                match split_row(tail, delims.drop_first()) {
                    None => {},
                    Some(rest) => {
                        let head = seq![s.take(i), delims[0]];
                        let row = head + rest;
                        lemma_width_subrange(s, 0, i);
                        lemma_width_subrange(s, i, i + delims[0].len());
                        lemma_width_subrange(s, i + delims[0].len(), s.len() as int);
                        assert forall|j: int| 0 <= j < row.len() - 1 implies text_width(
                            #[trigger] row[j],
                        ) <= text_width(s) by {
                            if j >= 2 {
                                assert(row[j] == rest[j - 2]);
                            }
                        }
                        assert forall|k: int| 0 <= k < delims.len() implies #[trigger] row[2 * k
                            + 1] == delims[k] by {
                            if k >= 1 {
                                assert(row[2 * k + 1] == rest[2 * (k - 1) + 1]);
                                assert(delims.drop_first()[k - 1] == delims[k]);
                            }
                        }
                    },
                }
            },
        }
    }
}

/// A character that the split text does not hold is in no cell of its row,
/// the end-of-row marker aside.
pub proof fn lemma_split_row_free(s: Seq<char>, delims: Seq<Seq<char>>, c: char)
    requires
        free_of(s, c),
    ensures
        split_row(s, delims) matches Some(row) ==> forall|j: int|
            0 <= j < row.len() - 1 ==> free_of(#[trigger] row[j], c),
    decreases delims.len(),
{
    if delims.len() == 0 {
        assert(seq![s, "\n"@][0] == s);
    } else {
        lemma_find(s, delims[0]);
        match find(s, delims[0]) {
            None => {},
            Some(i) => {
                let tail = s.skip(i + delims[0].len());
                lemma_split_row_free(tail, delims.drop_first(), c);
                lemma_split_row(tail, delims.drop_first());
                match split_row(tail, delims.drop_first()) {
                    None => {},
                    Some(rest) => {
                        let row = seq![s.take(i), delims[0]] + rest;
                        assert(delims[0] =~= s.subrange(i, i + delims[0].len()));
                        assert forall|j: int| 0 <= j < row.len() - 1 implies free_of(
                            #[trigger] row[j],
                            c,
                        ) by {
                            if j >= 2 {
                                assert(row[j] == rest[j - 2]);
                            }
                        }
                    },
                }
            },
        }
    }
}

/// Splits `s` into its row under `delims`.
pub fn split_cells(s: &[char], delims: &Vec<Vec<char>>) -> (r: Option<Vec<Vec<char>>>)
    ensures
        match r {
            Some(cells) => split_row(s@, texts(delims@)) == Some(texts(cells@)),
            None => split_row(s@, texts(delims@)) is None,
        },
{
    let ghost ds = texts(delims@);
    let mut cells: Vec<Vec<char>> = Vec::new();
    let mut pos: usize = 0;
    let mut k: usize = 0;
    proof {
        assert(s@.skip(0) =~= s@);
        assert(ds.skip(0) =~= ds);
        assert(texts(cells@) + split_row(s@, ds).unwrap() =~= split_row(s@, ds).unwrap());
    }
    while k < delims.len()
        invariant
            k <= delims.len(),
            pos <= s.len(),
            ds == texts(delims@),
            split_row(s@, ds) == prepend_cells(
                texts(cells@),
                split_row(s@.skip(pos as int), ds.skip(k as int)),
            ),
        decreases delims.len() - k,
    {
        let ghost tail = s@.skip(pos as int);
        let delim = &delims[k];
        proof {
            assert(ds.skip(k as int)[0] == delim@);
            assert(ds.skip(k as int).drop_first() =~= ds.skip(k + 1));
            lemma_find(tail, delim@);
        }
        match find_text(slice_subrange(s, pos, s.len()), delim) {
            None => {
                return None;
            },
            Some(i) => {
                let before = copy_range(s, pos, pos + i);
                let found = copy_range(s, pos + i, pos + i + delim.len());
                proof {
                    assert(matches_at(tail, delim@, i as int));
                    assert(before@ =~= tail.take(i as int));
                    assert(found@ =~= delim@);
                    assert(tail.skip(i + delim@.len()) =~= s@.skip(pos + i + delim@.len()));
                    let ghost old_cells = texts(cells@);
                    assert(texts(cells@.push(before).push(found)) =~= old_cells + seq![
                        tail.take(i as int),
                        delim@,
                    ]);
                    let ghost next = split_row(
                        s@.skip(pos + i + delim@.len()),
                        ds.skip(k + 1),
                    );
                    if next is Some {
                        assert(old_cells + (seq![tail.take(i as int), delim@] + next.unwrap())
                            =~= (old_cells + seq![tail.take(i as int), delim@]) + next.unwrap());
                    }
                }
                cells.push(before);
                cells.push(found);
                pos = pos + i + delim.len();
            },
        }
        k += 1;
    }
    let rest = copy_range(s, pos, s.len());
    let end = chars_of("\n");
    proof {
        assert(rest@ =~= s@.skip(pos as int));
        assert(texts(cells@.push(rest).push(end)) =~= texts(cells@) + seq![
            s@.skip(pos as int),
            "\n"@,
        ]);
    }
    cells.push(rest);
    cells.push(end);
    Some(cells)
}

/// Splits `s` at the first occurrence of each of `alignment_parts` in turn,
/// each looked for in what follows the one before. The result holds the
/// text before each part and the part, in turn, then the rest of `s`, then
/// a line feed. `None` where a part is not found.
pub fn seperate_str_on_alignments(s: String, alignment_parts: &[String]) -> (r: Option<
    Vec<String>,
>)
    ensures
        match r {
            Some(cells) => split_row(s@, string_texts(alignment_parts@)) == Some(
                string_texts(cells@),
            ),
            None => split_row(s@, string_texts(alignment_parts@)) is None,
        },
{
    let text = chars_of(s.as_str());
    let mut delims: Vec<Vec<char>> = Vec::new();
    let mut k: usize = 0;
    while k < alignment_parts.len()
        invariant
            k <= alignment_parts.len(),
            texts(delims@) == string_texts(alignment_parts@).take(k as int),
        decreases alignment_parts.len() - k,
    {
        let part = chars_of(alignment_parts[k].as_str());
        proof {
            assert(texts(delims@.push(part)) =~= texts(delims@).push(part@));
            assert(string_texts(alignment_parts@).take(k + 1) =~= string_texts(
                alignment_parts@,
            ).take(k as int).push(part@));
        }
        delims.push(part);
        k += 1;
    }
    proof {
        assert(string_texts(alignment_parts@).take(k as int) =~= string_texts(
            alignment_parts@,
        ));
    }
    match split_cells(&text, &delims) {
        None => None,
        Some(cells) => {
            let mut out: Vec<String> = Vec::new();
            let mut j: usize = 0;
            while j < cells.len()
                invariant
                    j <= cells.len(),
                    string_texts(out@) == texts(cells@).take(j as int),
                decreases cells.len() - j,
            {
                let cell = string_of(&cells[j]);
                proof {
                    assert(string_texts(out@.push(cell)) =~= string_texts(out@).push(cell@));
                    assert(texts(cells@).take(j + 1) =~= texts(cells@).take(j as int).push(
                        cell@,
                    ));
                }
                out.push(cell);
                j += 1;
            }
            proof {
                assert(texts(cells@).take(j as int) =~= texts(cells@));
            }
            Some(out)
        },
    }
}

/// The rows of the block that begins at line `start`: the longest run of
/// lines from there on of which none holds the marker and each, with its
/// whitespace collapsed, has a row under `delims`.
pub open spec fn block_rows(lines: Seq<Seq<char>>, start: int, delims: Seq<Seq<char>>) -> Seq<
    Seq<Seq<char>>,
>
    decreases lines.len() - start,
{
    if start < 0 || start >= lines.len() || has_marker(lines[start]) {
        Seq::empty()
    } else {
        match split_row(squeeze(lines[start]), delims) {
            None => Seq::empty(),
            Some(row) => seq![row] + block_rows(lines, start + 1, delims),
        }
    }
}

/// The line can be a row of a block under `delims`.
pub open spec fn joins_block(line: Seq<char>, delims: Seq<Seq<char>>) -> bool {
    !has_marker(line) && split_row(squeeze(line), delims) is Some
}

/// A block is made of the lines from `start` on that can join it, up to the
/// first that cannot, which it leaves alone: each row is the row of its
/// line, in the order of the lines, and the line after the last row, if
/// there is one, holds the marker or lacks a delimiter.
pub proof fn lemma_block_rows(lines: Seq<Seq<char>>, start: int, delims: Seq<Seq<char>>)
    requires
        0 <= start <= lines.len(),
    ensures
        start + block_rows(lines, start, delims).len() <= lines.len(),
        forall|r: int|
            0 <= r < block_rows(lines, start, delims).len() ==> {
                &&& joins_block(#[trigger] lines[start + r], delims)
                &&& split_row(squeeze(lines[start + r]), delims) == Some(
                    block_rows(lines, start, delims)[r],
                )
            },
        start + block_rows(lines, start, delims).len() < lines.len() ==> !joins_block(
            lines[start + block_rows(lines, start, delims).len()],
            delims,
        ),
    decreases lines.len() - start,
{
    if start < lines.len() && joins_block(lines[start], delims) {
        lemma_block_rows(lines, start + 1, delims);
        let rest = block_rows(lines, start + 1, delims);
        let rows = block_rows(lines, start, delims);
        assert forall|r: int| 0 <= r < rows.len() implies {
            &&& joins_block(#[trigger] lines[start + r], delims)
            &&& split_row(squeeze(lines[start + r]), delims) == Some(rows[r])
        } by {
            if r > 0 {
                assert(rows[r] == rest[r - 1]);
                assert(lines[start + r] == lines[(start + 1) + (r - 1)]);
            }
        }
    }
}

/// Collects the block that begins at line `start` of `lines`.
pub fn collect_block(lines: &Vec<Vec<char>>, start: usize, delims: &Vec<Vec<char>>) -> (rows:
    Vec<Vec<Vec<char>>>)
    requires
        start <= lines.len(),
    ensures
        row_texts(rows@) == block_rows(texts(lines@), start as int, texts(delims@)),
{
    let ghost ls = texts(lines@);
    let ghost ds = texts(delims@);
    let mut rows: Vec<Vec<Vec<char>>> = Vec::new();
    let mut at: usize = start;
    proof {
        assert(row_texts(rows@) + block_rows(ls, start as int, ds) =~= block_rows(
            ls,
            start as int,
            ds,
        ));
    }
    while at < lines.len()
        invariant_except_break
            block_rows(ls, start as int, ds) == row_texts(rows@) + block_rows(ls, at as int, ds),
        invariant
            start <= at <= lines.len(),
            ls == texts(lines@),
            ds == texts(delims@),
        ensures
            block_rows(ls, start as int, ds) == row_texts(rows@),
        decreases lines.len() - at,
    {
        let line = &lines[at];
        assert(ls[at as int] == line@);
        if line_has_marker(line) {
            assert(row_texts(rows@) + block_rows(ls, at as int, ds) =~= row_texts(rows@));
            break ;
        }
        let squeezed = squeeze_blanks(line);
        match split_cells(&squeezed, delims) {
            None => {
                assert(row_texts(rows@) + block_rows(ls, at as int, ds) =~= row_texts(rows@));
                break ;
            },
            Some(cells) => {
                proof {
                    assert(row_texts(rows@.push(cells)) =~= row_texts(rows@) + seq![
                        texts(cells@),
                    ]);
                    assert(row_texts(rows@) + (seq![texts(cells@)] + block_rows(ls, at + 1, ds))
                        =~= (row_texts(rows@) + seq![texts(cells@)]) + block_rows(
                        ls,
                        at + 1,
                        ds,
                    ));
                }
                rows.push(cells);
            },
        }
        at += 1;
        proof {
            if at == lines.len() {
                assert(row_texts(rows@) + block_rows(ls, at as int, ds) =~= row_texts(rows@));
            }
        }
    }
    rows
}

/// A block that ends before the last line is the same block among the
/// lines without the last.
pub proof fn lemma_block_rows_drop_last(lines: Seq<Seq<char>>, start: int, delims: Seq<Seq<char>>)
    requires
        0 <= start <= lines.len(),
        start + block_rows(lines, start, delims).len() < lines.len(),
    ensures
        block_rows(lines.drop_last(), start, delims) == block_rows(lines, start, delims),
    decreases lines.len() - start,
{
    let fore = lines.drop_last();
    if start < fore.len() {
        assert(fore[start] == lines[start]);
        if !has_marker(lines[start]) && split_row(squeeze(lines[start]), delims) is Some {
            lemma_block_rows_drop_last(lines, start + 1, delims);
        }
    }
}

} // verus!
