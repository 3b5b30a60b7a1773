//! Padding the columns of a block to a common width.

use vstd::prelude::*;
use crate::block::row_texts;
use crate::text::{
    append_chars, free_of, lemma_width_concat, lemma_width_spaces, spaces, text_width, texts,
    width_of,
};

verus! {

/// Every row has `n` cells.
pub open spec fn uniform(rows: Seq<Seq<Seq<char>>>, n: nat) -> bool {
    forall|r: int| 0 <= r < rows.len() ==> (#[trigger] rows[r]).len() == n
}

/// Every cell fits a machine word in width.
pub open spec fn measurable(rows: Seq<Seq<Seq<char>>>) -> bool {
    forall|r: int, j: int|
        0 <= r < rows.len() && 0 <= j < rows[r].len() ==> text_width(#[trigger] rows[r][j])
            <= usize::MAX
}

/// The width of column `j`: the greatest width of a cell of that column.
pub open spec fn column_width(rows: Seq<Seq<Seq<char>>>, j: int) -> nat
    decreases rows.len(),
{
    if rows.len() == 0 {
        0
    } else {
        let above = column_width(rows.drop_last(), j);
        let here = text_width(rows.last()[j]);
        if here > above {
            here
        } else {
            above
        }
    }
}

/// `cell` with spaces after it up to the given width; `cell` itself where
/// it is that wide or wider.
pub open spec fn pad_cell(cell: Seq<char>, width: nat) -> Seq<char> {
    if text_width(cell) < width {
        cell + spaces((width - text_width(cell)) as nat)
    } else {
        cell
    }
}

/// Row `r` with each cell padded to the width of its column, but for the
/// last two cells of the row, which stay as they are.
pub open spec fn padded_row(rows: Seq<Seq<Seq<char>>>, r: int) -> Seq<Seq<char>> {
    Seq::new(
        rows[r].len(),
        |j: int|
            if j < rows[r].len() - 2 {
                pad_cell(rows[r][j], column_width(rows, j))
            } else {
                rows[r][j]
            },
    )
}

/// The texts of `parts` one after the other.
pub open spec fn concat(parts: Seq<Seq<char>>) -> Seq<char>
    decreases parts.len(),
{
    if parts.len() == 0 {
        Seq::empty()
    } else {
        concat(parts.drop_last()) + parts.last()
    }
}

/// The lines of a block: each row's padded cells joined, rows in their
/// order.
pub open spec fn aligned_lines(rows: Seq<Seq<Seq<char>>>) -> Seq<Seq<char>> {
    Seq::new(rows.len(), |r: int| concat(padded_row(rows, r)))
}

/// The width of a column is the width of one of its cells, and no cell of
/// the column is wider.
pub proof fn lemma_column_width(rows: Seq<Seq<Seq<char>>>, j: int)
    ensures
        forall|r: int|
            0 <= r < rows.len() ==> text_width(#[trigger] rows[r][j]) <= column_width(rows, j),
        rows.len() > 0 ==> exists|r: int|
            0 <= r < rows.len() && text_width(#[trigger] rows[r][j]) == column_width(rows, j),
    decreases rows.len(),
{
    if rows.len() > 0 {
        let above = rows.drop_last();
        lemma_column_width(above, j);
        assert forall|r: int| 0 <= r < rows.len() implies text_width(#[trigger] rows[r][j])
            <= column_width(rows, j) by {
            if r < above.len() {
                assert(above[r] == rows[r]);
            }
        }
        if text_width(rows.last()[j]) > column_width(above, j) || above.len() == 0 {
            assert(text_width(rows[rows.len() - 1][j]) == column_width(rows, j));
        } else {
            let r = choose|r: int|
                0 <= r < above.len() && text_width(#[trigger] above[r][j]) == column_width(
                    above,
                    j,
                );
            assert(above[r] == rows[r]);
            assert(text_width(rows[r][j]) == column_width(rows, j));
        }
    }
}

/// In every padded column all cells are as wide as the widest cell that the
/// column had before padding, and each is its old cell followed by spaces
/// only.
pub proof fn lemma_padded_columns(rows: Seq<Seq<Seq<char>>>, r: int, j: int)
    requires
        0 <= r < rows.len(),
        0 <= j < rows[r].len() - 2,
    ensures
        text_width(padded_row(rows, r)[j]) == column_width(rows, j),
        padded_row(rows, r)[j] == rows[r][j] + spaces(
            (column_width(rows, j) - text_width(rows[r][j])) as nat,
        ),
{
    lemma_column_width(rows, j);
    let cell = rows[r][j];
    let gap = (column_width(rows, j) - text_width(cell)) as nat;
    lemma_width_concat(cell, spaces(gap));
    lemma_width_spaces(gap);
    assert(cell + spaces(0) =~= cell);
}

/// The text of parts and one more part.
pub proof fn lemma_concat_push(parts: Seq<Seq<char>>, part: Seq<char>)
    ensures
        concat(parts.push(part)) == concat(parts) + part,
{
    assert(parts.push(part).drop_last() =~= parts);
}

/// The texts of two sequences of parts, one after the other, are the text
/// of the sequences put together.
pub proof fn lemma_concat_add(a: Seq<Seq<char>>, b: Seq<Seq<char>>)
    ensures
        concat(a + b) == concat(a) + concat(b),
    decreases b.len(),
{
    if b.len() == 0 {
        assert(a + b =~= a);
        assert(concat(a) + concat(b) =~= concat(a));
    } else {
        assert((a + b).drop_last() =~= a + b.drop_last());
        lemma_concat_add(a, b.drop_last());
        assert(concat(a) + (concat(b.drop_last()) + b.last()) =~= (concat(a) + concat(
            b.drop_last(),
        )) + b.last());
    }
}

/// The text of two parts.
pub proof fn lemma_concat_pair(a: Seq<char>, b: Seq<char>)
    ensures
        concat(seq![a, b]) == a + b,
        concat(seq![a]) == a,
{
    assert(seq![a, b].drop_last() =~= seq![a]);
    assert(seq![a].drop_last() =~= Seq::<Seq<char>>::empty());
    assert(concat(seq![a].drop_last()) =~= Seq::<char>::empty());
    assert(concat(seq![a]) =~= a);
}

/// The text ends in a line feed, and a character that is none comes
/// before it.
pub open spec fn well_ended(t: Seq<char>) -> bool {
    t.len() >= 2 && t[t.len() - 1] == '\n' && t[t.len() - 2] != '\n'
}

/// Parts that lack a character make a text that lacks it.
pub proof fn lemma_concat_free(parts: Seq<Seq<char>>, c: char)
    requires
        forall|j: int| 0 <= j < parts.len() ==> free_of(#[trigger] parts[j], c),
    ensures
        free_of(concat(parts), c),
    decreases parts.len(),
{
    if parts.len() > 0 {
        lemma_concat_free(parts.drop_last(), c);
        assert(free_of(parts[parts.len() - 1], c));
    }
}

/// The parts of a text are no longer than the text.
pub proof fn lemma_concat_len(parts: Seq<Seq<char>>, j: int)
    requires
        0 <= j < parts.len(),
    ensures
        parts[j].len() <= concat(parts).len(),
    decreases parts.len(),
{
    if j < parts.len() - 1 {
        lemma_concat_len(parts.drop_last(), j);
    }
}

/// The line of a row whose cells hold no line feed, but for the last,
/// which is the end-of-row marker, and of which one is not empty, is well
/// ended.
pub proof fn lemma_aligned_line_well_ended(rows: Seq<Seq<Seq<char>>>, r: int, j: int)
    requires
        0 <= r < rows.len(),
        0 <= j < rows[r].len() - 1,
        rows[r][j].len() > 0,
        rows[r].last() == seq!['\n'],
        forall|k: int| 0 <= k < rows[r].len() - 1 ==> free_of(#[trigger] rows[r][k], '\n'),
    ensures
        well_ended(aligned_lines(rows)[r]),
{
    let padded = padded_row(rows, r);
    let body = padded.drop_last();
    assert forall|k: int| 0 <= k < body.len() implies free_of(#[trigger] body[k], '\n') by {
        assert(free_of(rows[r][k], '\n'));
    }
    lemma_concat_free(body, '\n');
    lemma_concat_len(body, j);
    assert(body[j].len() >= rows[r][j].len());
    assert(padded.last() == seq!['\n']);
}

/// The widths of the first `n` columns of `rows`.
pub fn column_widths(rows: &Vec<Vec<Vec<char>>>, n: usize) -> (widths: Vec<usize>)
    requires
        measurable(row_texts(rows@)),
        forall|r: int| 0 <= r < rows.len() ==> n <= (#[trigger] rows[r]).len(),
    ensures
        widths.len() == n,
        forall|j: int| 0 <= j < n ==> widths[j] == column_width(row_texts(rows@), j),
{
    let ghost rs = row_texts(rows@);
    let mut widths: Vec<usize> = Vec::new();
    let mut j: usize = 0;
    while j < n
        invariant
            j <= n,
            rs == row_texts(rows@),
            measurable(rs),
            forall|r: int| 0 <= r < rows.len() ==> n <= (#[trigger] rows[r]).len(),
            widths.len() == j,
            forall|k: int| 0 <= k < j ==> widths[k] == column_width(rs, k),
        decreases n - j,
    {
        let mut widest: usize = 0;
        let mut r: usize = 0;
        while r < rows.len()
            invariant
                r <= rows.len(),
                j < n,
                rs == row_texts(rows@),
                measurable(rs),
                forall|r: int| 0 <= r < rows.len() ==> n <= (#[trigger] rows[r]).len(),
                widest == column_width(rs.take(r as int), j as int),
            decreases rows.len() - r,
        {
            proof {
                assert(rs.take(r + 1).drop_last() =~= rs.take(r as int));
                assert(rs[r as int][j as int] == rows[r as int][j as int]@);
                assert(text_width(rs[r as int][j as int]) <= usize::MAX);
            }
            let w: usize = width_of(&rows[r][j]);
            if w > widest {
                widest = w;
            }
            r += 1;
        }
        proof {
            assert(rs.take(r as int) =~= rs);
        }
        widths.push(widest);
        j += 1;
    }
    widths
}

/// Appends `n` spaces to `out`.
pub fn append_spaces(out: &mut Vec<char>, n: usize)
    ensures
        final(out)@ == old(out)@ + spaces(n as nat),
{
    let mut k: usize = 0;
    proof {
        assert(out@ + spaces(0) =~= out@);
    }
    while k < n
        invariant
            k <= n,
            out@ == old(out)@ + spaces(k as nat),
        decreases n - k,
    {
        out.push(' ');
        proof {
            assert(spaces((k + 1) as nat) =~= spaces(k as nat).push(' '));
        }
        k += 1;
    }
}

/// Appends each of `lines` to `out`, in order.
pub fn append_all(out: &mut Vec<char>, lines: &Vec<Vec<char>>)
    ensures
        final(out)@ == old(out)@ + concat(texts(lines@)),
{
    let ghost ls = texts(lines@);
    let mut k: usize = 0;
    proof {
        assert(out@ + concat(ls.take(0)) =~= out@);
    }
    while k < lines.len()
        invariant
            k <= lines.len(),
            ls == texts(lines@),
            out@ == old(out)@ + concat(ls.take(k as int)),
        decreases lines.len() - k,
    {
        proof {
            assert(ls.take(k + 1).drop_last() =~= ls.take(k as int));
            assert(ls.take(k + 1).last() == lines[k as int]@);
        }
        append_chars(out, &lines[k]);
        k += 1;
    }
    proof {
        assert(ls.take(k as int) =~= ls);
    }
}

/// Aligns a block: pads every cell but the last two of each row to the
/// width of its column, with spaces after the cell, and joins the cells of
/// each row into a line.
pub fn align_rows(rows: &Vec<Vec<Vec<char>>>) -> (lines: Vec<Vec<char>>)
    requires
        rows.len() > 0,
        uniform(row_texts(rows@), rows[0].len() as nat),
        rows[0].len() >= 2,
        measurable(row_texts(rows@)),
    ensures
        texts(lines@) == aligned_lines(row_texts(rows@)),
{
    let ghost rs = row_texts(rows@);
    let n: usize = rows[0].len();
    proof {
        assert forall|r: int| 0 <= r < rows.len() implies n - 2 <= (#[trigger] rows[r]).len() by {
            assert(rs[r].len() == n);
        }
    }
    let widths = column_widths(rows, n - 2);
    let mut lines: Vec<Vec<char>> = Vec::new();
    let mut r: usize = 0;
    while r < rows.len()
        invariant
            r <= rows.len(),
            n >= 2,
            rs == row_texts(rows@),
            uniform(rs, n as nat),
            measurable(rs),
            widths.len() == n - 2,
            forall|j: int| 0 <= j < n - 2 ==> widths[j] == column_width(rs, j),
            texts(lines@) == aligned_lines(rs).take(r as int),
        decreases rows.len() - r,
    {
        let row = &rows[r];
        let ghost padded = padded_row(rs, r as int);
        proof {
            assert(rs[r as int] == texts(row@));
            assert(rs[r as int].len() == n);
        }
        let mut line: Vec<char> = Vec::new();
        let mut j: usize = 0;
        while j < n
            invariant
                j <= n,
                n >= 2,
                r < rows.len(),
                row == &rows[r as int],
                row.len() == n,
                rs == row_texts(rows@),
                rs[r as int] == texts(row@),
                measurable(rs),
                padded == padded_row(rs, r as int),
                widths.len() == n - 2,
                forall|k: int| 0 <= k < n - 2 ==> widths[k] == column_width(rs, k),
                line@ == concat(padded.take(j as int)),
            decreases n - j,
        {
            let cell = &row[j];
            proof {
                assert(padded.take(j + 1).drop_last() =~= padded.take(j as int));
                assert(rs[r as int][j as int] == cell@);
                assert(text_width(rs[r as int][j as int]) <= usize::MAX);
            }
            append_chars(&mut line, cell);
            if j < n - 2 {
                let w: usize = width_of(cell);
                if w < widths[j] {
                    append_spaces(&mut line, widths[j] - w);
                }
                proof {
                    assert(line@ =~= concat(padded.take(j as int)) + padded[j as int]);
                }
            }
            j += 1;
        }
        proof {
            assert(padded.take(j as int) =~= padded);
            assert(aligned_lines(rs).take(r + 1) =~= aligned_lines(rs).take(r as int).push(
                concat(padded),
            ));
            assert(texts(lines@.push(line)) =~= texts(lines@).push(line@));
        }
        lines.push(line);
        r += 1;
    }
    proof {
        assert(aligned_lines(rs).take(r as int) =~= aligned_lines(rs));
    }
    lines
}

} // verus!
